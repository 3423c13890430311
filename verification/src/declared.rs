//! The declared overlay — what the consuming Nix module wants installed.
//!
//! It carries an optional `$hexis` envelope with the per-key modes:
//!
//! ```text
//! { "$hexis": { "schema": 1, "modes": { "/devtools/autoConnect": "once" } },
//!   "devtools": { "autoConnect": true } }
//! ```
//!
//! The envelope is stripped from the data.
use vstd::prelude::*;

use crate::error::Error;
use crate::json::{Json, JsonValue};
use crate::pointer::{encode, lemma_pointer_text_round_trip, token_prefix, well_formed, JsonPointer};
use crate::pointer_map::PointerMap;
use crate::syntax::{json_reading, read_json};
use crate::types::{mode_named, Mode};

verus! {

/// What a declared overlay holds: the data to install and the mode map.
pub struct DeclaredView {
    pub data: JsonValue,
    pub modes: Map<Seq<Seq<char>>, Mode>,
}

/// The mode map a written `modes` object stands for: every key must be
/// pointer text and every value a mode name.
pub open spec fn parse_modes(m: Map<Seq<char>, JsonValue>) -> Option<Map<Seq<Seq<char>>, Mode>> {
    if forall|k: Seq<char>|
        #[trigger] m.contains_key(k) ==> well_formed(k) && m[k] is String && mode_named(
            m[k]->String_0,
        ) is Some {
        Some(
            Map::new(
                |t: Seq<Seq<char>>| m.contains_key(encode(t)),
                |t: Seq<Seq<char>>| mode_named(m[encode(t)]->String_0)->Some_0,
            ),
        )
    } else {
        None
    }
}

/// The mode map a `$hexis` envelope stands for: an object whose `schema`
/// is 1, with an optional `modes` object.
pub open spec fn parse_envelope(envelope: JsonValue) -> Option<Map<Seq<Seq<char>>, Mode>> {
    match envelope {
        JsonValue::Object(e) => if e.contains_key("schema"@) && e["schema"@] == JsonValue::Number(
            "1"@,
        ) {
            if e.contains_key("modes"@) {
                match e["modes"@] {
                    JsonValue::Object(m) => parse_modes(m),
                    _ => None,
                }
            } else {
                Some(Map::empty())
            }
        } else {
            None
        },
        _ => None,
    }
}

/// The declared overlay a document stands for: an object, whose `$hexis`
/// member, if any, is a valid envelope and is taken out of the data.
pub open spec fn parse_declared(v: JsonValue) -> Option<DeclaredView> {
    match v {
        JsonValue::Object(r) => if r.contains_key("$hexis"@) {
            match parse_envelope(r["$hexis"@]) {
                Some(modes) => Some(
                    DeclaredView { data: JsonValue::Object(r.remove("$hexis"@)), modes },
                ),
                None => None,
            }
        } else {
            Some(DeclaredView { data: v, modes: Map::empty() })
        },
        _ => None,
    }
}

/// Why a document is not a declared overlay, where its shape decides; `None`
/// where an entry of its mode table does (the first bad one met, in member
/// order).
pub open spec fn declared_refusal(v: JsonValue) -> Option<Seq<char>> {
    match v {
        JsonValue::Object(r) => if r.contains_key("$hexis"@) {
            match r["$hexis"@] {
                JsonValue::Object(e) => if !(e.contains_key("schema"@) && e["schema"@]
                    == JsonValue::Number("1"@)) {
                    Some("unsupported $hexis schema"@)
                } else if e.contains_key("modes"@) && !(e["modes"@] is Object) {
                    Some("malformed $hexis envelope"@)
                } else {
                    None
                },
                _ => Some("malformed $hexis envelope"@),
            }
        } else {
            None
        },
        _ => Some("root must be an object"@),
    }
}

/// The mode of the nearest listed ancestor of `tokens` (itself included);
/// `ensure` when none is listed.
pub open spec fn nearest_mode(modes: Map<Seq<Seq<char>>, Mode>, tokens: Seq<Seq<char>>) -> Mode
    decreases tokens.len(),
{
    if modes.contains_key(tokens) {
        modes[tokens]
    } else if tokens.len() == 0 {
        Mode::Ensure
    } else {
        nearest_mode(modes, tokens.drop_last())
    }
}

#[derive(Debug)]
pub struct Declared {
    data: Json,
    modes: PointerMap<Mode>,
}

impl View for Declared {
    type V = DeclaredView;

    closed spec fn view(&self) -> DeclaredView {
        DeclaredView { data: self.data@, modes: self.modes@ }
    }
}

impl Declared {
    /// Read a declared overlay document. `source_path` names where it came
    /// from in the error.
    pub fn from_value(value: Json, source_path: &str) -> (r: Result<Declared, Error>)
        ensures
            match parse_declared(value@) {
                Some(d) => r matches Ok(declared) && declared@ == d,
                None => r matches Err(Error::DeclaredParse { source_path: p, reason: q }) && p@
                    == source_path@ && (declared_refusal(value@) matches Some(m) ==> q@ == m),
            },
    {
        let ghost given = value@;
        let mut root = match value {
            Json::Object(o) => o,
            _ => {
                return Err(Error::DeclaredParse {
                    source_path: source_path.to_owned(),
                    reason: "root must be an object".to_owned(),
                });
            },
        };
        let ghost rm = root@;
        let envelope = match root.remove("$hexis") {
            Some(e) => e,
            None => {
                proof {
                    assert(root@ =~= rm);
                }
                return Ok(Declared { data: Json::Object(root), modes: PointerMap::new() });
            },
        };
        let fail = Error::DeclaredParse {
            source_path: source_path.to_owned(),
            reason: "malformed $hexis envelope".to_owned(),
        };
        let e = match envelope.as_object() {
            Some(e) => e,
            None => {
                return Err(fail);
            },
        };
        let schema_is_one = match e.get("schema") {
            Some(Json::Number(text)) => text.as_str().to_owned() == "1".to_owned(),
            _ => false,
        };
        if !schema_is_one {
            return Err(Error::DeclaredParse {
                source_path: source_path.to_owned(),
                reason: "unsupported $hexis schema".to_owned(),
            });
        }
        let mut modes: PointerMap<Mode> = PointerMap::new();
        match e.get("modes") {
            Some(modes_value) => {
                let table = match modes_value.as_object() {
                    Some(t) => t,
                    None => {
                        return Err(fail);
                    },
                };
                let ghost tm = table@;
                proof {
                    assert(parse_envelope(envelope@) == parse_modes(tm));
                }
                let keys = table.keys();
                let mut i: usize = 0;
                while i < keys.len()
                    invariant
                        i <= keys.len(),
                        tm == table@,
                        value@ == given,
                        declared_refusal(given) is None,
                        parse_declared(given) == (match parse_modes(tm) {
                            Some(ms) => Some(
                                DeclaredView { data: JsonValue::Object(rm.remove("$hexis"@)), modes: ms },
                            ),
                            None => None,
                        }),
                        root@ == rm.remove("$hexis"@),
                        forall|l: int| 0 <= l < keys.len() ==> tm.contains_key(#[trigger] keys@[l]@),
                        forall|k: Seq<char>|
                            tm.contains_key(k) ==> exists|l: int| 0 <= l < keys.len() && #[trigger] keys@[l]@ == k,
                        forall|l: int|
                            0 <= l < i ==> well_formed(#[trigger] keys@[l]@) && tm[keys@[l]@] is String
                                && mode_named(tm[keys@[l]@]->String_0) is Some,
                        forall|t: Seq<Seq<char>>|
                            #[trigger] modes@.contains_key(t) <==> exists|l: int|
                                0 <= l < i && keys@[l]@ == encode(t),
                        forall|t: Seq<Seq<char>>|
                            #[trigger] modes@.contains_key(t) ==> modes@[t] == mode_named(
                                tm[encode(t)]->String_0,
                            )->Some_0,
                    decreases keys.len() - i,
                {
                    let key = &keys[i];
                    let pointer = match JsonPointer::from_str(key.as_str()) {
                        Ok(p) => p,
                        Err(_) => {
                            proof {
                                assert(tm.contains_key(keys@[i as int]@));
                                assert(parse_modes(tm) is None);
                                assert(parse_declared(given) is None);
                            }
                            return Err(Error::DeclaredParse {
                                source_path: source_path.to_owned(),
                                reason: "mode key is not a JSON pointer".to_owned(),
                            });
                        },
                    };
                    let mode = match table.get(key.as_str()) {
                        Some(Json::String(name)) => match Mode::from_name(name.as_str()) {
                            Some(m) => m,
                            None => {
                                proof {
                                    assert(tm.contains_key(keys@[i as int]@));
                                    assert(parse_modes(tm) is None);
                                    assert(parse_declared(given) is None);
                                }
                                return Err(Error::DeclaredParse {
                                    source_path: source_path.to_owned(),
                                    reason: "unknown mode name".to_owned(),
                                });
                            },
                        },
                        _ => {
                            return Err(Error::DeclaredParse {
                                source_path: source_path.to_owned(),
                                reason: "mode must be a string".to_owned(),
                            });
                        },
                    };
                    let ghost t = pointer@;
                    modes.insert(pointer, mode);
                    proof {
                        assert forall|tt: Seq<Seq<char>>| #[trigger] modes@.contains_key(tt) <==> exists|l: int|
                            0 <= l < i + 1 && keys@[l]@ == encode(tt) by {
                            if tt == t {
                                assert(keys@[i as int]@ == encode(tt));
                            } else if exists|l: int| 0 <= l < i + 1 && keys@[l]@ == encode(tt) {
                                let l = choose|l: int| 0 <= l < i + 1 && keys@[l]@ == encode(tt);
                                if l == i {
                                    lemma_pointer_text_round_trip(tt, t);
                                }
                            }
                        }
                    }
                    i = i + 1;
                }
                proof {
                    assert forall|k: Seq<char>| #[trigger] tm.contains_key(k) implies well_formed(k)
                        && tm[k] is String && mode_named(tm[k]->String_0) is Some by {
                        let l = choose|l: int| 0 <= l < keys.len() && #[trigger] keys@[l]@ == k;
                        assert(well_formed(keys@[l]@));
                    }
                    let ms = parse_modes(tm)->Some_0;
                    assert forall|t: Seq<Seq<char>>| #[trigger] modes@.contains_key(t) == ms.contains_key(t) by {
                        if ms.contains_key(t) {
                            let l = choose|l: int| 0 <= l < keys.len() && #[trigger] keys@[l]@ == encode(t);
                            assert(keys@[l]@ == encode(t));
                        }
                    }
                    assert(modes@ =~= ms);
                }
            },
            None => {
                proof {
                    assert(modes@ =~= Map::<Seq<Seq<char>>, Mode>::empty());
                }
            },
        }
        Ok(Declared { data: Json::Object(root), modes })
    }

    /// Read a declared overlay from JSON text; `source_path` names where it
    /// came from in the error. Text that is not JSON is refused with the
    /// parser's message.
    pub fn from_text(text: &str, source_path: &str) -> (r: Result<Declared, Error>)
        ensures
            match json_reading(text@) {
                Err(message) => r matches Err(Error::DeclaredParse { source_path: p, reason: q })
                    && p@ == source_path@ && q@ == message,
                Ok(v) => match parse_declared(v) {
                    Some(d) => r matches Ok(declared) && declared@ == d,
                    None => r matches Err(Error::DeclaredParse { source_path: p, reason: q }) && p@
                        == source_path@ && (declared_refusal(v) matches Some(m) ==> q@ == m),
                },
            },
    {
        match read_json(text) {
            Ok(value) => Declared::from_value(value, source_path),
            Err(message) => Err(Error::DeclaredParse { source_path: source_path.to_owned(), reason: message }),
        }
    }

    /// Read a declared overlay from JSON text that came from no file.
    pub fn from_text_for_test(text: &str) -> (r: Result<Declared, Error>)
        ensures
            match json_reading(text@) {
                Err(message) => r matches Err(Error::DeclaredParse { source_path: p, reason: q })
                    && p@ == "<test>"@ && q@ == message,
                Ok(v) => match parse_declared(v) {
                    Some(d) => r matches Ok(declared) && declared@ == d,
                    None => r matches Err(Error::DeclaredParse { source_path: p, reason: q }) && p@
                        == "<test>"@ && (declared_refusal(v) matches Some(m) ==> q@ == m),
                },
            },
    {
        Declared::from_text(text, "<test>")
    }

    /// The data to install, without the envelope.
    pub fn data(&self) -> (r: &Json)
        ensures
            r@ == self@.data,
    {
        &self.data
    }

    /// The mode that governs `pointer`: that of its nearest listed
    /// ancestor (itself included), `ensure` when none is listed.
    pub fn mode_at(&self, pointer: &JsonPointer) -> (r: Mode)
        ensures
            r == nearest_mode(self@.modes, pointer@),
    {
        let ancestors = pointer.ancestors();
        let ghost n = pointer@.len();
        let mut j: usize = 0;
        proof {
            assert(pointer@.subrange(0, n as int) =~= pointer@);
        }
        while j < ancestors.len()
            invariant
                ancestors.len() == n + 1,
                n == pointer@.len(),
                j <= ancestors.len(),
                forall|i: int|
                    0 <= i < ancestors.len() ==> #[trigger] ancestors@[i]@ == pointer@.subrange(0, n - i),
                j < ancestors.len() ==> nearest_mode(self@.modes, pointer@) == nearest_mode(
                    self@.modes,
                    pointer@.subrange(0, n - j),
                ),
                j == ancestors.len() ==> nearest_mode(self@.modes, pointer@) == Mode::Ensure,
            decreases ancestors.len() - j,
        {
            match self.modes.get(&ancestors[j]) {
                Some(mode) => {
                    return *mode;
                },
                None => {
                    proof {
                        let here = pointer@.subrange(0, n - j);
                        if j < n {
                            assert(here.drop_last() =~= pointer@.subrange(0, n - (j + 1)));
                        } else {
                            assert(here.len() == 0);
                        }
                    }
                },
            }
            j = j + 1;
        }
        Mode::Ensure
    }
}

/// A mode listed at `at` governs every pointer under it up to the next
/// listed pointer: nearest ancestor wins.
pub proof fn lemma_mode_inherits(
    modes: Map<Seq<Seq<char>>, Mode>,
    at: Seq<Seq<char>>,
    tokens: Seq<Seq<char>>,
)
    requires
        modes.contains_key(at),
        token_prefix(at, tokens),
        forall|b: Seq<Seq<char>>|
            #[trigger] modes.contains_key(b) && b != at && token_prefix(at, b) ==> !token_prefix(
                b,
                tokens,
            ),
    ensures
        nearest_mode(modes, tokens) == modes[at],
    decreases tokens.len(),
{
    if tokens.len() > at.len() {
        let up = tokens.drop_last();
        assert(up.subrange(0, at.len() as int) =~= tokens.subrange(0, at.len() as int));
        assert forall|b: Seq<Seq<char>>|
            #[trigger] modes.contains_key(b) && b != at && token_prefix(at, b) implies !token_prefix(
            b,
            up,
        ) by {
            if token_prefix(b, up) {
                assert(tokens.subrange(0, b.len() as int) =~= up.subrange(0, b.len() as int));
            }
        }
        if modes.contains_key(tokens) {
            assert(tokens.subrange(0, tokens.len() as int) =~= tokens);
        }
        lemma_mode_inherits(modes, at, up);
    } else {
        assert(tokens =~= at);
    }
}

/// A pointer no listed pointer lies above gets the default mode, `ensure`.
pub proof fn lemma_default_mode(modes: Map<Seq<Seq<char>>, Mode>, tokens: Seq<Seq<char>>)
    requires
        forall|b: Seq<Seq<char>>| #[trigger] modes.contains_key(b) ==> !token_prefix(b, tokens),
    ensures
        nearest_mode(modes, tokens) == Mode::Ensure,
    decreases tokens.len(),
{
    assert(tokens.subrange(0, tokens.len() as int) =~= tokens);
    if tokens.len() > 0 {
        let up = tokens.drop_last();
        assert forall|b: Seq<Seq<char>>| #[trigger] modes.contains_key(b) implies !token_prefix(b, up) by {
            if token_prefix(b, up) {
                assert(tokens.subrange(0, b.len() as int) =~= up.subrange(0, b.len() as int));
            }
        }
        lemma_default_mode(modes, up);
    }
}

} // verus!
