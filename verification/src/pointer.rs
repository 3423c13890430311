//! JSON Pointers (RFC 6901): parsing, the ancestor relation, and reading
//! and writing a document at a pointer.
//!
//! A pointer means its sequence of reference tokens; its text is the
//! encoding of those tokens (`/` before each, `~` written `~0` and `/`
//! written `~1`).
use vstd::prelude::*;

use crate::error::Error;
use crate::json::{Json, JsonObject, JsonValue};

verus! {

broadcast use {
    vstd::seq::group_seq_axioms,
    vstd::seq_lib::group_seq_properties,
    vstd::std_specs::vec::group_vec_axioms,
};

/// How one character of a reference token is written.
pub open spec fn escape_char(c: char) -> Seq<char> {
    if c == '~' {
        seq!['~', '0']
    } else if c == '/' {
        seq!['~', '1']
    } else {
        seq![c]
    }
}

/// How a reference token is written.
pub open spec fn escape(token: Seq<char>) -> Seq<char>
    decreases token.len(),
{
    if token.len() == 0 {
        Seq::empty()
    } else {
        escape(token.drop_last()) + escape_char(token.last())
    }
}

/// The text of the pointer with the given reference tokens.
pub open spec fn encode(tokens: Seq<Seq<char>>) -> Seq<char>
    decreases tokens.len(),
{
    if tokens.len() == 0 {
        Seq::empty()
    } else {
        encode(tokens.drop_last()) + seq!['/'] + escape(tokens.last())
    }
}

/// RFC 6901's grammar: empty, or a `/` first, and every `~` followed by
/// `0` or `1`.
pub open spec fn well_formed(text: Seq<char>) -> bool {
    &&& (text.len() == 0 || text[0] == '/')
    &&& forall|i: int|
        0 <= i < text.len() && #[trigger] text[i] == '~' ==> i + 1 < text.len() && (text[i + 1]
            == '0' || text[i + 1] == '1')
}

/// Whether `prefix` is a prefix of `tokens`: the pointer with tokens
/// `tokens` lies at or under the one with tokens `prefix`.
pub open spec fn token_prefix(prefix: Seq<Seq<char>>, tokens: Seq<Seq<char>>) -> bool {
    prefix.len() <= tokens.len() && tokens.subrange(0, prefix.len() as int) == prefix
}

/// The array index that a reference token names, if it names one: decimal
/// digits without a leading zero (but `0` itself).
pub open spec fn array_index(token: Seq<char>) -> Option<nat> {
    if token.len() > 0 && (forall|i: int| 0 <= i < token.len() ==> is_digit(#[trigger] token[i])) && (
    token[0] != '0' || token.len() == 1) {
        Some(digits_value(token))
    } else {
        None
    }
}

pub open spec fn is_digit(c: char) -> bool {
    '0' <= c <= '9'
}

pub open spec fn digits_value(digits: Seq<char>) -> nat
    decreases digits.len(),
{
    if digits.len() == 0 {
        0
    } else {
        (digits_value(digits.drop_last()) * 10 + (digits.last() as nat - '0' as nat)) as nat
    }
}

/// The value found at `tokens` in `v`, if any.
pub open spec fn lookup(v: JsonValue, tokens: Seq<Seq<char>>) -> Option<JsonValue>
    decreases tokens.len(),
{
    if tokens.len() == 0 {
        Some(v)
    } else {
        match v {
            JsonValue::Object(m) => if m.contains_key(tokens[0]) {
                lookup(m[tokens[0]], tokens.drop_first())
            } else {
                None
            },
            JsonValue::Array(items) => match array_index(tokens[0]) {
                Some(i) => if i < items.len() {
                    lookup(items[i as int], tokens.drop_first())
                } else {
                    None
                },
                None => None,
            },
            _ => None,
        }
    }
}

/// The document after writing `new` at `tokens`, creating missing objects
/// on the way; `None` where the path runs through a value that is not an
/// object.
pub open spec fn assign(v: JsonValue, tokens: Seq<Seq<char>>, new: JsonValue) -> Option<JsonValue>
    decreases tokens.len(),
{
    if tokens.len() == 0 {
        Some(new)
    } else {
        match v {
            JsonValue::Object(m) => {
                let child = if m.contains_key(tokens[0]) {
                    m[tokens[0]]
                } else {
                    JsonValue::Object(Map::empty())
                };
                match assign(child, tokens.drop_first(), new) {
                    Some(c) => Some(JsonValue::Object(m.insert(tokens[0], c))),
                    None => None,
                }
            },
            _ => None,
        }
    }
}

pub open spec fn string_views(strings: Seq<String>) -> Seq<Seq<char>> {
    strings.map_values(|s: String| s@)
}

/// A JSON Pointer.
#[derive(Debug)]
pub struct JsonPointer {
    text: String,
    tokens: Vec<String>,
}

impl View for JsonPointer {
    type V = Seq<Seq<char>>;

    closed spec fn view(&self) -> Seq<Seq<char>> {
        string_views(self.tokens@)
    }
}

proof fn lemma_escape_len(token: Seq<char>)
    ensures
        escape(token).len() >= token.len(),
        token.len() > 0 ==> escape(token).len() > 0,
    decreases token.len(),
{
    if token.len() > 0 {
        lemma_escape_len(token.drop_last());
    }
}

/// An escaped token holds no `/`, and never ends in `~`; each `~` in it is
/// followed by `0` or `1`.
proof fn lemma_escape_shape(token: Seq<char>)
    ensures
        forall|i: int| 0 <= i < escape(token).len() ==> #[trigger] escape(token)[i] != '/',
        escape(token).len() > 0 ==> escape(token).last() != '~',
        forall|i: int|
            0 <= i < escape(token).len() && #[trigger] escape(token)[i] == '~' ==> i + 1 < escape(
                token,
            ).len() && (escape(token)[i + 1] == '0' || escape(token)[i + 1] == '1'),
    decreases token.len(),
{
    if token.len() > 0 {
        let front = escape(token.drop_last());
        lemma_escape_shape(token.drop_last());
        let e = escape(token);
        assert(e == front + escape_char(token.last()));
        assert forall|i: int| 0 <= i < e.len() && #[trigger] e[i] == '~' implies i + 1 < e.len() && (e[i
            + 1] == '0' || e[i + 1] == '1') by {
            if i < front.len() {
                assert(front[i] == '~');
                if i + 1 == front.len() {
                    assert(front.last() == '~');
                } else {
                    assert(e[i + 1] == front[i + 1]);
                }
            }
        }
        assert forall|i: int| 0 <= i < e.len() implies #[trigger] e[i] != '/' by {
            if i < front.len() {
                assert(e[i] == front[i]);
            }
        }
    }
}

proof fn lemma_escape_char_injective(a: char, b: char)
    requires
        escape_char(a) == escape_char(b),
    ensures
        a == b,
{
    let ea = escape_char(a);
    let eb = escape_char(b);
    assert(ea.len() == eb.len());
    assert(ea[0] == eb[0]);
    if ea.len() == 2 {
        assert(ea[1] == eb[1]);
        assert(a == '~' || a == '/');
        assert(b == '~' || b == '/');
    } else {
        assert(ea =~= seq![a]);
        assert(eb =~= seq![b]);
    }
}

proof fn lemma_escape_injective(a: Seq<char>, b: Seq<char>)
    requires
        escape(a) == escape(b),
    ensures
        a == b,
    decreases a.len() + b.len(),
{
    lemma_escape_len(a);
    lemma_escape_len(b);
    if a.len() > 0 && b.len() > 0 {
        let ca = a.last();
        let cb = b.last();
        let ea = escape(a.drop_last());
        let eb = escape(b.drop_last());
        let e = escape(a);
        assert(e == ea + escape_char(ca));
        assert(e == eb + escape_char(cb));
        lemma_escape_shape(a.drop_last());
        lemma_escape_shape(b.drop_last());
        if escape_char(ca).len() == escape_char(cb).len() {
            assert(escape_char(ca) =~= e.subrange(ea.len() as int, e.len() as int));
            assert(escape_char(cb) =~= e.subrange(eb.len() as int, e.len() as int));
            lemma_escape_char_injective(ca, cb);
            assert(ea =~= e.subrange(0, ea.len() as int));
            assert(eb =~= e.subrange(0, eb.len() as int));
            lemma_escape_injective(a.drop_last(), b.drop_last());
            assert(a =~= a.drop_last().push(ca));
            assert(b =~= b.drop_last().push(cb));
        } else if escape_char(ca).len() == 2 {
            assert(e[e.len() - 2] == '~');
            assert(eb.last() == e[e.len() - 2]);
        } else {
            assert(e[e.len() - 2] == '~');
            assert(ea.last() == e[e.len() - 2]);
        }
    }
}

proof fn lemma_encode_injective(a: Seq<Seq<char>>, b: Seq<Seq<char>>)
    requires
        encode(a) == encode(b),
    ensures
        a == b,
    decreases a.len() + b.len(),
{
    if a.len() == 0 && b.len() > 0 {
        assert(encode(b).len() > 0);
    } else if b.len() == 0 && a.len() > 0 {
        assert(encode(a).len() > 0);
    } else if a.len() > 0 && b.len() > 0 {
        let fa = encode(a.drop_last());
        let fb = encode(b.drop_last());
        let la = escape(a.last());
        let lb = escape(b.last());
        let e = encode(a);
        assert(e == fa + seq!['/'] + la);
        assert(e == fb + seq!['/'] + lb);
        lemma_escape_shape(a.last());
        lemma_escape_shape(b.last());
        if fa.len() < fb.len() {
            assert(e[fb.len() as int] == '/');
            assert(la[fb.len() - fa.len() - 1] == e[fb.len() as int]);
        } else if fb.len() < fa.len() {
            assert(e[fa.len() as int] == '/');
            assert(lb[fa.len() - fb.len() - 1] == e[fa.len() as int]);
        } else {
            assert(fa =~= e.subrange(0, fa.len() as int));
            assert(fb =~= e.subrange(0, fb.len() as int));
            assert(la =~= e.subrange(fa.len() + 1int, e.len() as int));
            assert(lb =~= e.subrange(fb.len() + 1int, e.len() as int));
            lemma_encode_injective(a.drop_last(), b.drop_last());
            lemma_escape_injective(a.last(), b.last());
            assert(a =~= a.drop_last().push(a.last()));
            assert(b =~= b.drop_last().push(b.last()));
        }
    }
}

proof fn lemma_encode_well_formed(tokens: Seq<Seq<char>>)
    ensures
        well_formed(encode(tokens)),
    decreases tokens.len(),
{
    if tokens.len() > 0 {
        lemma_encode_well_formed(tokens.drop_last());
        lemma_escape_shape(tokens.last());
        let f = encode(tokens.drop_last());
        let l = escape(tokens.last());
        let e = encode(tokens);
        assert(e == f + seq!['/'] + l);
        assert forall|i: int| 0 <= i < e.len() && #[trigger] e[i] == '~' implies i + 1 < e.len() && (e[i
            + 1] == '0' || e[i + 1] == '1') by {
            if i < f.len() {
                assert(f[i] == '~');
                assert(e[i + 1] == f[i + 1]);
            } else if i > f.len() {
                assert(l[i - f.len() - 1] == '~');
                assert(e[i + 1] == l[i - f.len()]);
            }
        }
        if f.len() == 0 {
            assert(e[0] == '/');
        } else {
            assert(e[0] == f[0]);
        }
    }
}

/// Pointer text is read back as the same pointer, and only well-formed
/// text is pointer text: distinct pointers have distinct text.
pub proof fn lemma_pointer_text_round_trip(a: Seq<Seq<char>>, b: Seq<Seq<char>>)
    ensures
        well_formed(encode(a)),
        encode(a) == encode(b) ==> a == b,
{
    lemma_encode_well_formed(a);
    if encode(a) == encode(b) {
        lemma_encode_injective(a, b);
    }
}

/// The text of a reference token as written in a pointer.
fn escape_token(token: &str) -> (r: String)
    ensures
        r@ == escape(token@),
{
    let n = token.unicode_len();
    let mut out = String::new();
    let mut i: usize = 0;
    proof {
        reveal_strlit("~0");
        reveal_strlit("~1");
        assert(token@.subrange(0, 0) =~= Seq::<char>::empty());
    }
    while i < n
        invariant
            n == token@.len(),
            i <= n,
            out@ == escape(token@.subrange(0, i as int)),
        decreases n - i,
    {
        let c = token.get_char(i);
        proof {
            assert(token@.subrange(0, i + 1).drop_last() =~= token@.subrange(0, i as int));
            assert(token@.subrange(0, i + 1).last() == c);
        }
        if c == '~' {
            proof {
                reveal_strlit("~0");
            }
            out = out.concat("~0");
        } else if c == '/' {
            proof {
                reveal_strlit("~1");
            }
            out = out.concat("~1");
        } else {
            let piece = token.substring_char(i, i + 1);
            proof {
                assert(piece@ =~= seq![c]);
            }
            out = out.concat(piece);
        }
        i = i + 1;
    }
    proof {
        assert(token@.subrange(0, n as int) =~= token@);
    }
    out
}

proof fn lemma_string_views_push(strings: Seq<String>, s: String)
    ensures
        string_views(strings.push(s)) == string_views(strings).push(s@),
{
    assert(string_views(strings.push(s)) =~= string_views(strings).push(s@));
}

impl JsonPointer {
    #[verifier::type_invariant]
    spec fn text_encodes_tokens(self) -> bool {
        self.text@ == encode(string_views(self.tokens@))
    }

    /// The pointer to the whole document.
    pub fn root() -> (p: JsonPointer)
        ensures
            p@ == Seq::<Seq<char>>::empty(),
    {
        let p = JsonPointer { text: String::new(), tokens: Vec::new() };
        assert(p@ =~= Seq::<Seq<char>>::empty());
        p
    }

    /// Whether this is the pointer to the whole document.
    pub fn is_root(&self) -> (r: bool)
        ensures
            r == (self@.len() == 0),
    {
        self.tokens.len() == 0
    }

    /// The pointer's text.
    pub fn as_str(&self) -> (r: &str)
        ensures
            r@ == encode(self@),
    {
        proof {
            use_type_invariant(self);
        }
        self.text.as_str()
    }

    /// The pointer's text, owned.
    pub fn to_string(&self) -> (r: String)
        ensures
            r@ == encode(self@),
    {
        proof {
            use_type_invariant(self);
        }
        self.text.clone()
    }

    /// The reference tokens, unescaped.
    pub fn tokens(&self) -> (r: &Vec<String>)
        ensures
            string_views(r@) == self@,
    {
        &self.tokens
    }

    /// Parse pointer text.
    pub fn from_str(text: &str) -> (r: Result<JsonPointer, Error>)
        ensures
            match r {
                Ok(p) => well_formed(text@) && encode(p@) == text@,
                Err(e) => !well_formed(text@) && (e matches Error::InvalidJsonPointer(t) && t@ == text@),
            },
    {
        let n = text.unicode_len();
        if n == 0 {
            let p = JsonPointer::root();
            proof {
                assert(text@ =~= Seq::<char>::empty());
            }
            return Ok(p);
        }
        if text.get_char(0) != '/' {
            return Err(Error::InvalidJsonPointer(text.to_owned()));
        }
        let ghost t = text@;
        let mut tokens: Vec<String> = Vec::new();
        let mut current = String::new();
        let mut i: usize = 1;
        proof {
            reveal_strlit("~");
            reveal_strlit("/");
            assert(encode(string_views(tokens@)) + seq!['/'] + escape(current@) =~= t.subrange(0, 1));
        }
        while i < n
            invariant
                n == t.len(),
                t == text@,
                1 <= i <= n,
                t[0] == '/',
                encode(string_views(tokens@)) + seq!['/'] + escape(current@) == t.subrange(0, i as int),
                forall|j: int|
                    0 <= j < i && #[trigger] t[j] == '~' ==> j + 1 < i && (t[j + 1] == '0' || t[j + 1]
                        == '1'),
            decreases n - i,
        {
            let c = text.get_char(i);
            if c == '/' {
                let ghost prefix = encode(string_views(tokens@)) + seq!['/'] + escape(current@);
                let done = current;
                let ghost old_tokens = tokens@;
                proof {
                    lemma_string_views_push(tokens@, done);
                }
                tokens.push(done);
                current = String::new();
                proof {
                    let v = string_views(tokens@);
                    assert(v.drop_last() =~= string_views(old_tokens));
                    assert(encode(v) == prefix);
                    assert(t.subrange(0, i + 1) =~= t.subrange(0, i as int) + seq!['/']);
                    assert(escape(current@) =~= Seq::<char>::empty());
                    assert(encode(v) + seq!['/'] + escape(current@) =~= t.subrange(0, i + 1));
                }
                i = i + 1;
            } else if c == '~' {
                if i + 1 >= n {
                    return Err(Error::InvalidJsonPointer(text.to_owned()));
                }
                let next = text.get_char(i + 1);
                let ghost before = current@;
                if next == '0' {
                    proof {
                        reveal_strlit("~");
                    }
                    current = current.concat("~");
                    proof {
                        assert(current@.drop_last() =~= before);
                    }
                } else if next == '1' {
                    proof {
                        reveal_strlit("/");
                    }
                    current = current.concat("/");
                    proof {
                        assert(current@.drop_last() =~= before);
                    }
                } else {
                    return Err(Error::InvalidJsonPointer(text.to_owned()));
                }
                proof {
                    assert(t.subrange(0, i + 2) =~= t.subrange(0, i as int) + seq![c, next]);
                    assert(escape(current@) =~= escape(before) + seq![c, next]);
                }
                i = i + 2;
            } else {
                let piece = text.substring_char(i, i + 1);
                let ghost before = current@;
                current = current.concat(piece);
                proof {
                    assert(piece@ =~= seq![c]);
                    assert(current@.drop_last() =~= before);
                    assert(t.subrange(0, i + 1) =~= t.subrange(0, i as int) + seq![c]);
                    assert(escape(current@) =~= escape(before) + seq![c]);
                }
                i = i + 1;
            }
        }
        let ghost prefix = encode(string_views(tokens@)) + seq!['/'] + escape(current@);
        let last = current;
        let ghost old_tokens = tokens@;
        proof {
            lemma_string_views_push(tokens@, last);
        }
        tokens.push(last);
        proof {
            let v = string_views(tokens@);
            assert(v.drop_last() =~= string_views(old_tokens));
            assert(encode(v) == prefix);
            assert(t.subrange(0, n as int) =~= t);
        }
        Ok(JsonPointer { text: text.to_owned(), tokens })
    }
}


proof fn lemma_encode_push(tokens: Seq<Seq<char>>, t: Seq<char>)
    ensures
        encode(tokens.push(t)) == encode(tokens) + seq!['/'] + escape(t),
{
    assert(tokens.push(t).drop_last() =~= tokens);
}

proof fn lemma_digits_grow(digits: Seq<char>, k: int)
    requires
        0 <= k <= digits.len(),
        forall|i: int| 0 <= i < digits.len() ==> is_digit(#[trigger] digits[i]),
    ensures
        digits_value(digits.subrange(0, k)) <= digits_value(digits),
    decreases digits.len() - k,
{
    if k < digits.len() {
        let next = digits.subrange(0, k + 1);
        assert(next.drop_last() =~= digits.subrange(0, k));
        assert(is_digit(digits[k]));
        lemma_digits_grow(digits, k + 1);
        assert(digits.subrange(0, digits.len() as int) =~= digits);
    } else {
        assert(digits.subrange(0, k) =~= digits);
    }
}

/// The array index a reference token names, when it fits in `usize`.
fn parse_index(token: &str) -> (r: Option<usize>)
    ensures
        match array_index(token@) {
            Some(n) => if n <= usize::MAX {
                r == Some(n as usize)
            } else {
                r is None
            },
            None => r is None,
        },
{
    let n = token.unicode_len();
    if n == 0 {
        return None;
    }
    let first = token.get_char(0);
    if first == '0' && n != 1 {
        return None;
    }
    let mut value: usize = 0;
    let mut overflow = false;
    let mut i: usize = 0;
    let ghost t = token@;
    while i < n
        invariant
            n == t.len(),
            t == token@,
            i <= n,
            forall|j: int| 0 <= j < i ==> is_digit(#[trigger] t[j]),
            !overflow ==> value == digits_value(t.subrange(0, i as int)),
            overflow ==> digits_value(t.subrange(0, i as int)) > usize::MAX,
        decreases n - i,
    {
        let c = token.get_char(i);
        if !('0' <= c && c <= '9') {
            proof {
                assert(!is_digit(t[i as int]));
            }
            return None;
        }
        proof {
            assert(t.subrange(0, i + 1).drop_last() =~= t.subrange(0, i as int));
            assert(t.subrange(0, i + 1).last() == c);
        }
        let d = (c as u32 - '0' as u32) as usize;
        if !overflow {
            if value > (usize::MAX - d) / 10 {
                overflow = true;
                proof {
                    assert(value * 10 + d > usize::MAX) by (nonlinear_arith)
                        requires
                            value > (usize::MAX - d) / 10,
                            d <= 9,
                    ;
                }
            } else {
                proof {
                    assert(value * 10 + d <= usize::MAX) by (nonlinear_arith)
                        requires
                            value <= (usize::MAX - d) / 10,
                            d <= 9,
                    ;
                }
                value = value * 10 + d;
            }
        } else {
            proof {
                let prev = digits_value(t.subrange(0, i as int));
                assert(prev * 10 + d >= prev) by (nonlinear_arith)
                    requires
                        prev >= 0,
                        d >= 0,
                ;
            }
        }
        i = i + 1;
    }
    proof {
        assert(t.subrange(0, n as int) =~= t);
    }
    if overflow {
        None
    } else {
        Some(value)
    }
}

impl JsonPointer {
    /// The pointer with the given reference tokens.
    pub fn from_tokens(tokens: Vec<String>) -> (p: JsonPointer)
        ensures
            p@ == string_views(tokens@),
    {
        let mut text = String::new();
        let mut i: usize = 0;
        proof {
            assert(string_views(tokens@.subrange(0, 0)) =~= Seq::<Seq<char>>::empty());
        }
        while i < tokens.len()
            invariant
                i <= tokens.len(),
                text@ == encode(string_views(tokens@.subrange(0, i as int))),
            decreases tokens.len() - i,
        {
            let escaped = escape_token(tokens[i].as_str());
            proof {
                reveal_strlit("/");
            }
            text = text.concat("/");
            text = text.concat(escaped.as_str());
            proof {
                assert(string_views(tokens@.subrange(0, i + 1)) =~= string_views(
                    tokens@.subrange(0, i as int),
                ).push(tokens@[i as int]@));
                lemma_encode_push(string_views(tokens@.subrange(0, i as int)), tokens@[i as int]@);
            }
            i = i + 1;
        }
        proof {
            assert(tokens@.subrange(0, tokens.len() as int) =~= tokens@);
        }
        JsonPointer { text, tokens }
    }

    /// Whether two pointers are the same.
    pub fn same_as(&self, other: &JsonPointer) -> (r: bool)
        ensures
            r == (self@ == other@),
    {
        proof {
            use_type_invariant(self);
            use_type_invariant(other);
            lemma_pointer_text_round_trip(self@, other@);
        }
        self.text == other.text
    }

    /// A copy of this pointer.
    pub fn duplicate(&self) -> (p: JsonPointer)
        ensures
            p@ == self@,
    {
        proof {
            use_type_invariant(self);
        }
        let tokens = copy_strings(&self.tokens, self.tokens.len());
        proof {
            assert(tokens@ =~= self.tokens@);
        }
        JsonPointer { text: self.text.clone(), tokens }
    }

    /// The pointer one level up; none for the root.
    pub fn parent(&self) -> (r: Option<JsonPointer>)
        ensures
            match r {
                Some(p) => self@.len() > 0 && p@ == self@.drop_last(),
                None => self@.len() == 0,
            },
    {
        if self.tokens.len() == 0 {
            return None;
        }
        let front = copy_strings(&self.tokens, self.tokens.len() - 1);
        let p = JsonPointer::from_tokens(front);
        proof {
            assert(p@ =~= self@.drop_last());
        }
        Some(p)
    }

    /// The pointer one level down, through the reference token `token`.
    pub fn child(&self, token: &str) -> (p: JsonPointer)
        ensures
            p@ == self@.push(token@),
    {
        proof {
            use_type_invariant(self);
        }
        let mut tokens = copy_strings(&self.tokens, self.tokens.len());
        let owned = token.to_owned();
        let ghost before = tokens@;
        tokens.push(owned);
        let escaped = escape_token(token);
        proof {
            reveal_strlit("/");
        }
        let text = self.text.clone().concat("/").concat(escaped.as_str());
        proof {
            assert(before =~= self.tokens@);
            lemma_string_views_push(before, owned);
            lemma_encode_push(self@, token@);
            assert(string_views(tokens@) == self@.push(token@));
            assert(text@ == self.text@ + seq!['/'] + escaped@);
        }
        JsonPointer { text, tokens }
    }

    /// This pointer, its parent, and so on up to the root.
    pub fn ancestors(&self) -> (r: Vec<JsonPointer>)
        ensures
            r.len() == self@.len() + 1,
            forall|i: int|
                0 <= i < r.len() ==> #[trigger] r@[i]@ == self@.subrange(0, self@.len() - i),
    {
        let mut r: Vec<JsonPointer> = Vec::new();
        let mut current = self.duplicate();
        let ghost n = self@.len();
        proof {
            assert(current@ =~= self@.subrange(0, n as int));
        }
        loop
            invariant
                n == self@.len(),
                r.len() <= n,
                current@ == self@.subrange(0, n - r.len()),
                forall|i: int|
                    0 <= i < r.len() ==> #[trigger] r@[i]@ == self@.subrange(0, n - i),
            decreases n - r.len(),
        {
            match current.parent() {
                Some(p) => {
                    r.push(current);
                    current = p;
                    proof {
                        assert(current@ =~= self@.subrange(0, n - r.len()));
                    }
                },
                None => {
                    r.push(current);
                    return r;
                },
            }
        }
    }

    /// Whether this pointer lies at or under `root`.
    pub fn is_descendant_of(&self, root: &JsonPointer) -> (r: bool)
        ensures
            r == token_prefix(root@, self@),
    {
        if root.tokens.len() > self.tokens.len() {
            return false;
        }
        let mut i: usize = 0;
        while i < root.tokens.len()
            invariant
                root.tokens.len() <= self.tokens.len(),
                i <= root.tokens.len(),
                forall|j: int| 0 <= j < i ==> self@[j] == root@[j],
            decreases root.tokens.len() - i,
        {
            if self.tokens[i] != root.tokens[i] {
                proof {
                    assert(self@.subrange(0, root@.len() as int)[i as int] != root@[i as int]);
                }
                return false;
            }
            i = i + 1;
        }
        proof {
            assert(self@.subrange(0, root@.len() as int) =~= root@);
        }
        true
    }

    /// The value at this pointer in `doc`, if there is one.
    pub fn resolve<'a>(&self, doc: &'a Json) -> (r: Option<&'a Json>)
        ensures
            r is Some == lookup(doc@, self@) is Some,
            r matches Some(v) ==> lookup(doc@, self@) == Some(v@),
    {
        let n = self.tokens.len();
        let mut current = doc;
        let mut i: usize = 0;
        proof {
            assert(self@.subrange(0, n as int) =~= self@);
        }
        while i < n
            invariant
                n == self@.len(),
                i <= n,
                lookup(doc@, self@) == lookup(current@, self@.subrange(i as int, n as int)),
            decreases n - i,
        {
            let token = self.tokens[i].as_str();
            let ghost rest = self@.subrange(i as int, n as int);
            proof {
                assert(rest[0] == token@);
                assert(rest.drop_first() =~= self@.subrange(i + 1, n as int));
            }
            match current {
                Json::Object(o) => {
                    match o.get(token) {
                        Some(c) => {
                            current = c;
                        },
                        None => {
                            return None;
                        },
                    }
                },
                Json::Array(items) => {
                    proof {
                        crate::json::lemma_items_view(items@);
                    }
                    match parse_index(token) {
                        Some(k) => {
                            match current.array_item(k) {
                                Some(c) => {
                                    current = c;
                                },
                                None => {
                                    return None;
                                },
                            }
                        },
                        None => {
                            proof {
                                assert(*current == Json::Array(*items));
                                assert(current@ == JsonValue::Array(crate::json::items_view(items@)));
                                assert(crate::json::items_view(items@).len() == items.len());
                                assert(items_view_len_bound(current@));
                            }
                            return None;
                        },
                    }
                },
                _ => {
                    return None;
                },
            }
            i = i + 1;
        }
        proof {
            assert(self@.subrange(n as int, n as int) =~= Seq::<Seq<char>>::empty());
        }
        Some(current)
    }

    /// Write `value` at this pointer in `doc`, creating missing objects on
    /// the way. Fails, leaving `doc` as it was, where the path runs through
    /// a value that is not an object.
    pub fn set_in(&self, doc: &mut Json, value: Json) -> (r: Result<(), Error>)
        ensures
            match assign(old(doc)@, self@, value@) {
                Some(w) => r is Ok && final(doc)@ == w,
                None => final(doc)@ == old(doc)@ && (r matches Err(e) && e matches Error::PointerThroughNonObject(t) && t@ == encode(self@)),
            },
    {
        let mut taken = Json::Null;
        std::mem::swap(&mut taken, doc);
        proof {
            assert(self@.subrange(0, self@.len() as int) =~= self@);
        }
        match assign_from(taken, &self.tokens, 0, value) {
            Ok(updated) => {
                *doc = updated;
                Ok(())
            },
            Err(unchanged) => {
                *doc = unchanged;
                Err(Error::PointerThroughNonObject(self.to_string()))
            },
        }
    }
}

spec fn items_view_len_bound(v: JsonValue) -> bool {
    v matches JsonValue::Array(items) && items.len() <= usize::MAX
}

fn copy_strings(strings: &Vec<String>, count: usize) -> (r: Vec<String>)
    requires
        count <= strings.len(),
    ensures
        r@ == strings@.subrange(0, count as int),
{
    let mut r: Vec<String> = Vec::new();
    let mut i: usize = 0;
    while i < count
        invariant
            count <= strings.len(),
            i <= count,
            r@ == strings@.subrange(0, i as int),
        decreases count - i,
    {
        r.push(strings[i].clone());
        proof {
            assert(r@ =~= strings@.subrange(0, i + 1));
        }
        i = i + 1;
    }
    r
}

fn assign_from(doc: Json, tokens: &Vec<String>, i: usize, value: Json) -> (r: Result<Json, Json>)
    requires
        i <= tokens.len(),
    ensures
        match assign(doc@, string_views(tokens@).subrange(i as int, tokens.len() as int), value@) {
            Some(w) => r matches Ok(d) && d@ == w,
            None => r matches Err(d) && d@ == doc@,
        },
    decreases tokens.len() - i,
{
    let ghost rest = string_views(tokens@).subrange(i as int, tokens.len() as int);
    if i == tokens.len() {
        return Ok(value);
    }
    proof {
        assert(rest[0] == tokens@[i as int]@);
        assert(rest.drop_first() =~= string_views(tokens@).subrange(i + 1, tokens.len() as int));
    }
    match doc {
        Json::Object(mut o) => {
            let ghost m = o@;
            let key = tokens[i].as_str();
            let removed = o.remove(key);
            let existed = removed.is_some();
            let child = match removed {
                Some(c) => c,
                None => Json::empty_object(),
            };
            match assign_from(child, tokens, i + 1, value) {
                Ok(c) => {
                    o.insert(tokens[i].clone(), c);
                    proof {
                        assert(o@ =~= m.insert(key@, c@));
                    }
                    Ok(Json::Object(o))
                },
                Err(c) => {
                    if existed {
                        o.insert(tokens[i].clone(), c);
                        proof {
                            assert(o@ =~= m);
                        }
                    } else {
                        proof {
                            assert(o@ =~= m);
                        }
                    }
                    Err(Json::Object(o))
                },
            }
        },
        other => Err(other),
    }
}

impl Json {
    /// The value at the pointer with text `pointer`, if that text is a
    /// pointer and the document has a value there.
    pub fn pointer(&self, pointer: &str) -> (r: Option<&Json>)
        ensures
            match r {
                Some(v) => exists|tokens: Seq<Seq<char>>|
                    encode(tokens) == pointer@ && lookup(self@, tokens) == Some(v@),
                None => forall|tokens: Seq<Seq<char>>|
                    encode(tokens) == pointer@ ==> lookup(self@, tokens) is None,
            },
    {
        match JsonPointer::from_str(pointer) {
            Ok(p) => {
                proof {
                    assert forall|tokens: Seq<Seq<char>>| encode(tokens) == pointer@ implies tokens
                        == p@ by {
                        lemma_pointer_text_round_trip(tokens, p@);
                    }
                }
                p.resolve(self)
            },
            Err(_) => {
                proof {
                    assert forall|tokens: Seq<Seq<char>>| encode(tokens) == pointer@ implies lookup(
                        self@,
                        tokens,
                    ) is None by {
                        lemma_pointer_text_round_trip(tokens, tokens);
                    }
                }
                None
            },
        }
    }
}

/// Reading a pointer just written gives back the value written.
pub proof fn lemma_read_after_write(v: JsonValue, tokens: Seq<Seq<char>>, new: JsonValue)
    requires
        assign(v, tokens, new) is Some,
    ensures
        lookup(assign(v, tokens, new)->Some_0, tokens) == Some(new),
    decreases tokens.len(),
{
    if tokens.len() > 0 {
        let m = v->Object_0;
        let child = if m.contains_key(tokens[0]) {
            m[tokens[0]]
        } else {
            JsonValue::Object(Map::empty())
        };
        lemma_read_after_write(child, tokens.drop_first(), new);
    }
}

/// A write at one pointer leaves the value at every pointer that neither
/// lies under it nor above it as it was.
pub proof fn lemma_write_leaves_other_pointers(
    v: JsonValue,
    tokens: Seq<Seq<char>>,
    new: JsonValue,
    other: Seq<Seq<char>>,
)
    requires
        assign(v, tokens, new) is Some,
        !token_prefix(tokens, other),
        !token_prefix(other, tokens),
    ensures
        lookup(assign(v, tokens, new)->Some_0, other) == lookup(v, other),
    decreases tokens.len(),
{
    if tokens.len() == 0 {
        assert(other.subrange(0, 0) =~= tokens);
    } else if other.len() == 0 {
        assert(tokens.subrange(0, 0) =~= other);
    } else {
        let m = v->Object_0;
        let key = tokens[0];
        let child = if m.contains_key(key) {
            m[key]
        } else {
            JsonValue::Object(Map::empty())
        };
        let rest = tokens.drop_first();
        let other_rest = other.drop_first();
        if other[0] == key {
            if token_prefix(rest, other_rest) {
                assert(other.subrange(0, tokens.len() as int) =~= seq![key] + other_rest.subrange(
                    0,
                    rest.len() as int,
                ));
                assert(tokens =~= seq![key] + rest);
            }
            if token_prefix(other_rest, rest) {
                assert(tokens.subrange(0, other.len() as int) =~= seq![key] + rest.subrange(
                    0,
                    other_rest.len() as int,
                ));
                assert(other =~= seq![key] + other_rest);
            }
            lemma_write_leaves_other_pointers(child, rest, new, other_rest);
            if !m.contains_key(key) {
                assert(other_rest.len() > 0) by {
                    if other_rest.len() == 0 {
                        assert(rest.subrange(0, 0) =~= other_rest);
                    }
                }
            }
        }
    }
}

/// The descendant relation is reflexive and transitive, and every pointer
/// lies under the root.
pub proof fn lemma_descendant_order(a: Seq<Seq<char>>, b: Seq<Seq<char>>, c: Seq<Seq<char>>)
    ensures
        token_prefix(a, a),
        token_prefix(Seq::empty(), a),
        token_prefix(a, b) && token_prefix(b, c) ==> token_prefix(a, c),
{
    assert(a.subrange(0, a.len() as int) =~= a);
    assert(a.subrange(0, 0) =~= Seq::<Seq<char>>::empty());
    if token_prefix(a, b) && token_prefix(b, c) {
        assert(c.subrange(0, a.len() as int) =~= c.subrange(0, b.len() as int).subrange(
            0,
            a.len() as int,
        ));
    }
}

/// The path `tokens` runs through objects only, all the way down.
pub open spec fn object_path(v: JsonValue, tokens: Seq<Seq<char>>) -> bool
    decreases tokens.len(),
{
    if tokens.len() == 0 {
        true
    } else {
        match v {
            JsonValue::Object(m) => m.contains_key(tokens[0]) && object_path(
                m[tokens[0]],
                tokens.drop_first(),
            ),
            _ => false,
        }
    }
}

/// After a write, the path to the written pointer runs through objects.
pub proof fn lemma_write_makes_object_path(v: JsonValue, tokens: Seq<Seq<char>>, new: JsonValue)
    requires
        assign(v, tokens, new) is Some,
    ensures
        object_path(assign(v, tokens, new)->Some_0, tokens),
    decreases tokens.len(),
{
    if tokens.len() > 0 {
        let m = v->Object_0;
        let child = if m.contains_key(tokens[0]) {
            m[tokens[0]]
        } else {
            JsonValue::Object(Map::empty())
        };
        lemma_write_makes_object_path(child, tokens.drop_first(), new);
    }
}

/// A write keeps every object path that neither lies above nor under it.
pub proof fn lemma_write_keeps_object_path(
    v: JsonValue,
    tokens: Seq<Seq<char>>,
    new: JsonValue,
    other: Seq<Seq<char>>,
)
    requires
        assign(v, tokens, new) is Some,
        object_path(v, other),
        !token_prefix(tokens, other),
        !token_prefix(other, tokens),
    ensures
        object_path(assign(v, tokens, new)->Some_0, other),
    decreases tokens.len(),
{
    if tokens.len() == 0 {
        assert(other.subrange(0, 0) =~= tokens);
    } else if other.len() == 0 {
        assert(tokens.subrange(0, 0) =~= other);
    } else {
        let m = v->Object_0;
        let key = tokens[0];
        let rest = tokens.drop_first();
        let other_rest = other.drop_first();
        if other[0] == key {
            if token_prefix(rest, other_rest) {
                assert(other.subrange(0, tokens.len() as int) =~= seq![key] + other_rest.subrange(
                    0,
                    rest.len() as int,
                ));
                assert(tokens =~= seq![key] + rest);
            }
            if token_prefix(other_rest, rest) {
                assert(tokens.subrange(0, other.len() as int) =~= seq![key] + rest.subrange(
                    0,
                    other_rest.len() as int,
                ));
                assert(other =~= seq![key] + other_rest);
            }
            lemma_write_keeps_object_path(m[key], rest, new, other_rest);
        }
    }
}

/// Writing at a pointer, through objects, the value it already holds
/// changes nothing.
pub proof fn lemma_assign_same(v: JsonValue, tokens: Seq<Seq<char>>, new: JsonValue)
    requires
        object_path(v, tokens),
        lookup(v, tokens) == Some(new),
    ensures
        assign(v, tokens, new) == Some(v),
    decreases tokens.len(),
{
    if tokens.len() > 0 {
        let m = v->Object_0;
        lemma_assign_same(m[tokens[0]], tokens.drop_first(), new);
        assert(m.insert(tokens[0], m[tokens[0]]) =~= m);
    }
}
} // verus!
