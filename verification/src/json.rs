//! Parsing of the textual dictionary format.
//!
//! The dictionary source is a single JSON-like object of string keys and
//! string values. The parser is deliberately lenient: it scans for quoted
//! strings separated by commas and colons, handles backslash escapes by
//! taking the following character literally, skips anything malformed, and
//! drops entries whose key or value is empty. Pairs are returned in scan
//! order; when one key occurs twice, inserting the pairs in order leaves
//! the later value in force, as a keyed collection would.

use vstd::prelude::*;

verus! {

use crate::chars::is_space_char;
use crate::converter::PhonemeConverter;
use crate::strutil::{str_chars, chars_string, sub_chars, trim_range, trim_spec};

/// Failure to parse the dictionary source.
#[derive(Debug, PartialEq, Eq, Structural)]
pub enum ParseJsonError {
    /// The trimmed input does not start with an opening brace.
    MissingOpeningBrace,
    /// The input after the opening brace does not end with a closing brace.
    MissingClosingBrace,
}

/// First position at or after `i` that is neither whitespace nor a comma.
pub open spec fn json_skip_sep(s: Seq<char>, i: int) -> int
    decreases s.len() - i,
{
    if i < 0 || i >= s.len() {
        s.len() as int
    } else if is_space_char(s[i]) || s[i] == ',' {
        json_skip_sep(s, i + 1)
    } else {
        i
    }
}

/// First position at or after `i` that is neither whitespace nor a colon.
pub open spec fn json_skip_colon(s: Seq<char>, i: int) -> int
    decreases s.len() - i,
{
    if i < 0 || i >= s.len() {
        s.len() as int
    } else if is_space_char(s[i]) || s[i] == ':' {
        json_skip_colon(s, i + 1)
    } else {
        i
    }
}

/// Parse a quoted string's body starting at `i` (just after the opening
/// quote): the content up to the closing quote, with a backslash taking the
/// next character literally, and the position just after the string. An
/// unterminated string runs to the end of the input.
pub open spec fn json_string(s: Seq<char>, i: int) -> (Seq<char>, int)
    decreases s.len() - i,
{
    if i < 0 || i >= s.len() {
        (Seq::empty(), s.len() as int)
    } else if s[i] == '"' {
        (Seq::empty(), i + 1)
    } else if s[i] == '\\' {
        if i + 1 < s.len() {
            let rest = json_string(s, i + 2);
            (seq![s[i + 1]] + rest.0, rest.1)
        } else {
            (Seq::empty(), s.len() as int)
        }
    } else {
        let rest = json_string(s, i + 1);
        (seq![s[i]] + rest.0, rest.1)
    }
}

/// The key-value pairs scanned from `s[i..]`, in order. A position that
/// does not open a quoted key (or, after a key, a quoted value) is skipped;
/// a pair is kept only when both sides are nonempty. The range tests on
/// the intermediate positions only make the recursion visibly terminating;
/// the skip and string helpers always move forward within the input.
pub open spec fn json_pairs(s: Seq<char>, i: int) -> Seq<(Seq<char>, Seq<char>)>
    decreases s.len() - i,
{
    if i < 0 || i >= s.len() {
        Seq::empty()
    } else {
        let p1r = json_skip_sep(s, i);
        let p1 = if i <= p1r <= s.len() {
            p1r
        } else {
            i
        };
        if p1 >= s.len() {
            Seq::empty()
        } else if s[p1] != '"' {
            json_pairs(s, p1 + 1)
        } else {
            let key_p2 = json_string(s, p1 + 1);
            let p2 = if p1 + 1 <= key_p2.1 <= s.len() {
                key_p2.1
            } else {
                p1 + 1
            };
            let p3r = json_skip_colon(s, p2);
            let p3 = if p2 <= p3r <= s.len() {
                p3r
            } else {
                p2
            };
            if p3 >= s.len() {
                Seq::empty()
            } else if s[p3] != '"' {
                json_pairs(s, p3 + 1)
            } else {
                let val_p4 = json_string(s, p3 + 1);
                let p4 = if p3 + 1 <= val_p4.1 <= s.len() {
                    val_p4.1
                } else {
                    p3 + 1
                };
                let here: Seq<(Seq<char>, Seq<char>)> = if key_p2.0.len() > 0 && val_p4.0.len()
                    > 0 {
                    seq![(key_p2.0, val_p4.0)]
                } else {
                    Seq::empty()
                };
                here + json_pairs(s, p4)
            }
        }
    }
}

/// Outcome of parsing a whole dictionary source: the input is trimmed, must
/// be wrapped in braces, and its interior is scanned for pairs.
pub open spec fn json_parse_result(s: Seq<char>) -> Result<
    Seq<(Seq<char>, Seq<char>)>,
    ParseJsonError,
> {
    let t = trim_spec(s);
    if t.len() == 0 || t[0] != '{' {
        Err(ParseJsonError::MissingOpeningBrace)
    } else {
        let u = t.drop_first();
        if u.len() == 0 || u.last() != '}' {
            Err(ParseJsonError::MissingClosingBrace)
        } else {
            Ok(json_pairs(u.drop_last(), 0))
        }
    }
}

impl PhonemeConverter {
    /// Parse a JSON-like dictionary source into key-value pairs, in scan
    /// order, ready to be fed to the insertion path.
    pub fn parse_json(&self, json_str: &str) -> (r: Result<Vec<(String, String)>, ParseJsonError>)
        ensures
            match r {
                Ok(pairs) => json_parse_result(json_str@) matches Ok(sp) && pairs@.map_values(
                    |p: (String, String)| (p.0@, p.1@),
                ) == sp,
                Err(e) => json_parse_result(json_str@) == Err::<
                    Seq<(Seq<char>, Seq<char>)>,
                    ParseJsonError,
                >(e),
            },
    {
        let chars = str_chars(json_str);
        proof {
            assert(chars@.subrange(0, chars@.len() as int) =~= chars@);
        }
        let trimmed = trim_range(&chars, 0, chars.len());
        if trimmed.len() == 0 || trimmed[0] != '{' {
            return Err(ParseJsonError::MissingOpeningBrace);
        }
        if trimmed.len() == 1 || trimmed[trimmed.len() - 1] != '}' {
            proof {
                let t = trim_spec(chars@);
                assert(t.drop_first().len() == 0 || t.drop_first().last() != '}');
            }
            return Err(ParseJsonError::MissingClosingBrace);
        }
        let content = sub_chars(&trimmed, 1, trimmed.len() - 1);
        proof {
            let t = trim_spec(chars@);
            assert(content@ =~= t.drop_first().drop_last());
        }
        Ok(parse_pairs(&content))
    }
}

/// Scan an object interior for its key-value pairs.
fn parse_pairs(chars: &Vec<char>) -> (r: Vec<(String, String)>)
    ensures
        r@.map_values(|p: (String, String)| (p.0@, p.1@)) == json_pairs(chars@, 0),
{
    let ghost s = chars@;
    let mut acc: Vec<(String, String)> = Vec::new();
    let mut i: usize = 0;
    while i < chars.len()
        invariant
            s == chars@,
            i <= s.len(),
            acc@.map_values(|p: (String, String)| (p.0@, p.1@)) + json_pairs(s, i as int)
                == json_pairs(s, 0),
        decreases s.len() - i,
    {
        let ghost i0 = i as int;
        let p1 = skip_sep(chars, i);
        if p1 >= chars.len() {
            proof {
                assert(json_pairs(s, i0) =~= Seq::<(Seq<char>, Seq<char>)>::empty());
            }
            i = chars.len();
        } else if chars[p1] != '"' {
            proof {
                assert(json_pairs(s, i0) == json_pairs(s, p1 + 1));
            }
            i = p1 + 1;
        } else {
            let (key, p2) = json_string_exec(chars, p1 + 1);
            let p3 = skip_colon(chars, p2);
            if p3 >= chars.len() {
                proof {
                    assert(json_pairs(s, i0) =~= Seq::<(Seq<char>, Seq<char>)>::empty());
                }
                i = chars.len();
            } else if chars[p3] != '"' {
                proof {
                    assert(json_pairs(s, i0) == json_pairs(s, p3 + 1));
                }
                i = p3 + 1;
            } else {
                let (value, p4) = json_string_exec(chars, p3 + 1);
                let ghost acc0 = acc@;
                if key.len() > 0 && value.len() > 0 {
                    let pair = (chars_string(&key), chars_string(&value));
                    let ghost pairg = pair;
                    acc.push(pair);
                    proof {
                        assert(json_pairs(s, i0) == seq![(key@, value@)] + json_pairs(
                            s,
                            p4 as int,
                        ));
                        assert(acc0.push(pairg).map_values(|p: (String, String)| (p.0@, p.1@))
                            =~= acc0.map_values(|p: (String, String)| (p.0@, p.1@)).push(
                            (key@, value@),
                        ));
                        assert(acc0.map_values(|p: (String, String)| (p.0@, p.1@)).push(
                            (key@, value@),
                        ) + json_pairs(s, p4 as int) =~= acc0.map_values(
                            |p: (String, String)| (p.0@, p.1@),
                        ) + (seq![(key@, value@)] + json_pairs(s, p4 as int)));
                    }
                } else {
                    proof {
                        assert(json_pairs(s, i0) == Seq::<(Seq<char>, Seq<char>)>::empty()
                            + json_pairs(s, p4 as int));
                        assert(Seq::<(Seq<char>, Seq<char>)>::empty() + json_pairs(s, p4 as int)
                            =~= json_pairs(s, p4 as int));
                    }
                }
                i = p4;
            }
        }
    }
    proof {
        assert(json_pairs(s, s.len() as int) =~= Seq::<(Seq<char>, Seq<char>)>::empty());
        assert(acc@.map_values(|p: (String, String)| (p.0@, p.1@)) + Seq::<
            (Seq<char>, Seq<char>),
        >::empty() =~= acc@.map_values(|p: (String, String)| (p.0@, p.1@)));
    }
    acc
}

/// Skip whitespace and commas.
fn skip_sep(chars: &Vec<char>, from: usize) -> (r: usize)
    requires
        from <= chars@.len(),
    ensures
        from <= r <= chars@.len(),
        r as int == json_skip_sep(chars@, from as int),
        r < chars@.len() ==> !(is_space_char(chars@[r as int]) || chars@[r as int] == ','),
{
    let ghost s = chars@;
    let mut i = from;
    while i < chars.len() && (crate::chars::is_space(chars[i]) || chars[i] == ',')
        invariant
            from <= i <= s.len(),
            s == chars@,
            json_skip_sep(s, from as int) == json_skip_sep(s, i as int),
        decreases s.len() - i,
    {
        i = i + 1;
    }
    i
}

/// Skip whitespace and colons.
fn skip_colon(chars: &Vec<char>, from: usize) -> (r: usize)
    requires
        from <= chars@.len(),
    ensures
        from <= r <= chars@.len(),
        r as int == json_skip_colon(chars@, from as int),
        r < chars@.len() ==> !(is_space_char(chars@[r as int]) || chars@[r as int] == ':'),
{
    let ghost s = chars@;
    let mut i = from;
    while i < chars.len() && (crate::chars::is_space(chars[i]) || chars[i] == ':')
        invariant
            from <= i <= s.len(),
            s == chars@,
            json_skip_colon(s, from as int) == json_skip_colon(s, i as int),
        decreases s.len() - i,
    {
        i = i + 1;
    }
    i
}

/// Parse a quoted string's body (the opening quote already consumed).
fn json_string_exec(chars: &Vec<char>, from: usize) -> (r: (Vec<char>, usize))
    requires
        from <= chars@.len(),
    ensures
        r.0@ == json_string(chars@, from as int).0,
        r.1 as int == json_string(chars@, from as int).1,
        from <= r.1 <= chars@.len(),
{
    let ghost s = chars@;
    let mut out: Vec<char> = Vec::new();
    let mut i = from;
    loop
        invariant
            from <= i <= s.len(),
            s == chars@,
            json_string(s, from as int).0 == out@ + json_string(s, i as int).0,
            json_string(s, from as int).1 == json_string(s, i as int).1,
        ensures
            from <= i <= s.len(),
            json_string(s, from as int).0 == out@,
            json_string(s, from as int).1 == i + 1 || (json_string(s, from as int).1
                == s.len() as int && i == s.len()),
        decreases s.len() - i,
    {
        if i >= chars.len() {
            proof {
                assert(json_string(s, i as int).0 =~= Seq::<char>::empty());
                assert(out@ + Seq::<char>::empty() =~= out@);
            }
            break ;
        }
        let c = chars[i];
        if c == '"' {
            proof {
                assert(json_string(s, i as int).0 =~= Seq::<char>::empty());
                assert(out@ + Seq::<char>::empty() =~= out@);
            }
            break ;
        }
        if c == '\\' {
            if i + 1 < chars.len() {
                let ghost out0 = out@;
                out.push(chars[i + 1]);
                proof {
                    assert(json_string(s, i as int).0 == seq![s[i as int + 1]] + json_string(
                        s,
                        i as int + 2,
                    ).0);
                    assert(out0 + (seq![s[i as int + 1]] + json_string(s, i as int + 2).0)
                        =~= out0.push(s[i as int + 1]) + json_string(s, i as int + 2).0);
                }
                i = i + 2;
            } else {
                let ghost out0 = out@;
                proof {
                    assert(json_string(s, i as int).0 =~= Seq::<char>::empty());
                    assert(out0 + Seq::<char>::empty() =~= out0);
                }
                i = i + 1;
                break ;
            }
        } else {
            let ghost out0 = out@;
            out.push(c);
            proof {
                assert(json_string(s, i as int).0 == seq![s[i as int]] + json_string(
                    s,
                    i as int + 1,
                ).0);
                assert(out0 + (seq![s[i as int]] + json_string(s, i as int + 1).0) =~= out0.push(
                    s[i as int],
                ) + json_string(s, i as int + 1).0);
            }
            i = i + 1;
        }
    }
    if i >= chars.len() {
        (out, chars.len())
    } else {
        (out, i + 1)
    }
}

} // verus!
