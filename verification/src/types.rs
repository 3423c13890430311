//! Domain newtypes: the per-key mode and the managed-file identifier.
use vstd::prelude::*;
use vstd::string::StringSliceAdditionalSpecFns;

pub use crate::pointer::JsonPointer;

verus! {

/// The lifecycle a key in the declared overlay follows.
#[derive(Clone, Copy, Debug, PartialEq, Eq, Structural)]
pub enum Mode {
    /// Assert at adoption, never re-touch.
    Once,
    /// Declared wins where it speaks; user drift survives where declared is silent.
    Ensure,
    /// Declared is asserted on every apply; user mutation is overwritten next pass.
    Always,
}

impl View for Mode {
    type V = Mode;

    open spec fn view(&self) -> Mode {
        *self
    }
}

/// How a mode is written.
pub open spec fn mode_name(mode: Mode) -> Seq<char> {
    match mode {
        Mode::Once => "once"@,
        Mode::Ensure => "ensure"@,
        Mode::Always => "always"@,
    }
}

/// The mode a name stands for.
pub open spec fn mode_named(name: Seq<char>) -> Option<Mode> {
    if name == "once"@ {
        Some(Mode::Once)
    } else if name == "ensure"@ {
        Some(Mode::Ensure)
    } else if name == "always"@ {
        Some(Mode::Always)
    } else {
        None
    }
}

impl Mode {
    /// The mode applied to any key whose pointer has no enclosing entry in the mode map.
    pub const DEFAULT: Mode = Mode::Ensure;

    /// The mode's name: `once`, `ensure` or `always`.
    pub fn as_str(&self) -> (r: &'static str)
        ensures
            r@ == mode_name(*self),
    {
        match self {
            Mode::Once => "once",
            Mode::Ensure => "ensure",
            Mode::Always => "always",
        }
    }

    /// The mode's name, owned.
    pub fn to_string(&self) -> (r: String)
        ensures
            r@ == mode_name(*self),
    {
        self.as_str().to_owned()
    }

    /// The mode with the given name.
    pub fn from_name(name: &str) -> (r: Option<Mode>)
        ensures
            r == mode_named(name@),
    {
        let owned = name.to_owned();
        if owned == "once".to_owned() {
            Some(Mode::Once)
        } else if owned == "ensure".to_owned() {
            Some(Mode::Ensure)
        } else if owned == "always".to_owned() {
            Some(Mode::Always)
        } else {
            None
        }
    }
}

/// Reading a mode's name gives the mode back.
pub proof fn lemma_mode_name_round_trip(mode: Mode)
    ensures
        mode_named(mode_name(mode)) == Some(mode),
{
    reveal_strlit("once");
    reveal_strlit("ensure");
    reveal_strlit("always");
    assert("once"@.len() != "ensure"@.len());
    assert("once"@ != "always"@) by {
        assert("once"@[0] != "always"@[0]);
    }
    assert("ensure"@.len() == "always"@.len());
    assert("ensure"@ != "always"@) by {
        assert("ensure"@[0] != "always"@[0]);
    }
}

impl Default for Mode {
    fn default() -> (r: Mode)
        ensures
            r == Mode::Ensure,
    {
        Mode::Ensure
    }
}

/// The SHA-256 digest of `bytes`.
pub uninterp spec fn sha256_digest(bytes: Seq<u8>) -> Seq<u8>;

/// `sha2::Sha256::digest`. The contract names the digest and states the one
/// fact of it that the source shows: it is 32 bytes long.
#[verifier::external_body]
fn sha256(bytes: &[u8]) -> (r: Vec<u8>)
    ensures
        r@ == sha256_digest(bytes@),
        r@.len() == 32,
{
    <sha2::Sha256 as sha2::Digest>::digest(bytes).to_vec()
}

/// The lowercase hexadecimal digit for `n` (below 16).
pub open spec fn hex_digit(n: int) -> char {
    "0123456789abcdef"@[n]
}

/// Lowercase hexadecimal text of `bytes`, two digits per byte.
pub open spec fn hex_text(bytes: Seq<u8>) -> Seq<char>
    decreases bytes.len(),
{
    if bytes.len() == 0 {
        Seq::empty()
    } else {
        hex_text(bytes.drop_last()) + seq![
            hex_digit((bytes.last() / 16) as int),
            hex_digit((bytes.last() % 16) as int),
        ]
    }
}

fn hex_digit_text(n: u8) -> (r: &'static str)
    requires
        n < 16,
    ensures
        r@ == seq![hex_digit(n as int)],
{
    let digits = "0123456789abcdef";
    proof {
        reveal_strlit("0123456789abcdef");
    }
    let r = digits.substring_char(n as usize, n as usize + 1);
    assert(r@ =~= seq![hex_digit(n as int)]);
    r
}

/// Stable identifier for a managed file across runs: the key under which
/// its snapshot and drift report are stored.
#[derive(Clone, Debug, PartialEq, Eq, Hash)]
pub struct FileId {
    text: String,
}

impl View for FileId {
    type V = Seq<char>;

    closed spec fn view(&self) -> Seq<char> {
        self.text@
    }
}

impl FileId {
    pub fn new(text: String) -> (r: FileId)
        ensures
            r@ == text@,
    {
        FileId { text }
    }

    pub fn as_str(&self) -> (r: &str)
        ensures
            r@ == self@,
    {
        self.text.as_str()
    }

    /// The identifier of the file at `canonical_path`: the first 12 lowercase
    /// hexadecimal digits of the SHA-256 digest of the path's UTF-8 bytes.
    pub fn from_canonical_path(canonical_path: &str) -> (r: FileId)
        ensures
            r@ == hex_text(sha256_digest(canonical_path.spec_bytes()).subrange(0, 6)),
    {
        let digest = sha256(canonical_path.as_bytes());
        let mut text = String::new();
        let mut i: usize = 0;
        proof {
            assert(digest@.subrange(0, 0) =~= Seq::<u8>::empty());
        }
        while i < 6
            invariant
                i <= 6,
                digest@.len() == 32,
                text@ == hex_text(digest@.subrange(0, i as int)),
            decreases 6 - i,
        {
            let byte = digest[i];
            text = text.concat(hex_digit_text(byte / 16)).concat(hex_digit_text(byte % 16));
            proof {
                let front = digest@.subrange(0, i + 1);
                assert(front.drop_last() =~= digest@.subrange(0, i as int));
                assert(front.last() == byte);
            }
            i = i + 1;
        }
        FileId { text }
    }

    pub fn to_string(&self) -> (r: String)
        ensures
            r@ == self@,
    {
        self.text.clone()
    }

    /// Whether two identifiers name the same file.
    pub fn same_as(&self, other: &FileId) -> (r: bool)
        ensures
            r == (self@ == other@),
    {
        self.text == other.text
    }

    /// A copy of this identifier.
    pub fn duplicate(&self) -> (r: FileId)
        ensures
            r@ == self@,
    {
        FileId { text: self.text.clone() }
    }
}

} // verus!
