//! The persisted form of the index: one JSON object with a `repos` member
//! mapping each repository name to its path.
//!
//! The encoder emits exactly that shape. The parser accepts whitespace
//! between tokens, ignores unknown members of the top-level object, and
//! reports failure — never a panic — on any malformed document, so a corrupt
//! or truncated file can be recovered from by substituting an empty index.
use vstd::prelude::*;

use crate::index::spec_insert;

verus! {

/// JSON whitespace.
pub open spec fn is_ws(c: u8) -> bool {
    c == 32 || c == 9 || c == 10 || c == 13
}

/// The first position at or after `i` that does not hold whitespace.
pub open spec fn skip_ws(t: Seq<u8>, i: int) -> int
    decreases t.len() - i,
{
    if 0 <= i < t.len() && is_ws(t[i]) {
        skip_ws(t, i + 1)
    } else {
        i
    }
}

/// Position bounds of the whitespace scan.
pub proof fn lemma_skip_ws_bounds(t: Seq<u8>, i: int)
    requires
        0 <= i <= t.len(),
    ensures
        i <= skip_ws(t, i) <= t.len(),
    decreases t.len() - i,
{
    if i < t.len() && is_ws(t[i]) {
        lemma_skip_ws_bounds(t, i + 1);
    }
}

/// The byte that one escape character stands for.
pub open spec fn unesc(c: u8) -> Option<u8> {
    if c == 34 {
        Some(34u8)
    } else if c == 92 {
        Some(92u8)
    } else if c == 47 {
        Some(47u8)
    } else if c == 110 {
        Some(10u8)
    } else if c == 116 {
        Some(9u8)
    } else if c == 114 {
        Some(13u8)
    } else if c == 98 {
        Some(8u8)
    } else if c == 102 {
        Some(12u8)
    } else {
        None
    }
}

/// The value of one hexadecimal digit, either case.
pub open spec fn hex_digit(c: u8) -> Option<int> {
    if 48 <= c <= 57 {
        Some((c - 48) as int)
    } else if 97 <= c <= 102 {
        Some((c - 87) as int)
    } else if 65 <= c <= 70 {
        Some((c - 55) as int)
    } else {
        None
    }
}

/// The value of the four hexadecimal digits at `i`.
pub open spec fn hex4(t: Seq<u8>, i: int) -> Option<int> {
    if i < 0 || i + 4 > t.len() {
        None
    } else {
        match (hex_digit(t[i]), hex_digit(t[i + 1]), hex_digit(t[i + 2]), hex_digit(t[i + 3])) {
            (Some(a), Some(b), Some(c), Some(d)) => Some(a * 4096 + b * 256 + c * 16 + d),
            _ => None,
        }
    }
}

/// The UTF-8 encoding of a scalar value below 0x10000.
pub open spec fn utf8_of(v: int) -> Seq<u8> {
    if v < 0x80 {
        seq![v as u8]
    } else if v < 0x800 {
        seq![(0xC0 + v / 64) as u8, (0x80 + v % 64) as u8]
    } else {
        seq![(0xE0 + v / 4096) as u8, (0x80 + (v / 64) % 64) as u8, (0x80 + v % 64) as u8]
    }
}

/// Parse a string body, from just after the opening quote: the decoded
/// bytes and the position just after the closing quote. A `\uXXXX` escape
/// stands for the UTF-8 bytes of its scalar value; a surrogate value is
/// treated as malformed.
pub open spec fn parse_str(t: Seq<u8>, i: int) -> Option<(Seq<u8>, int)>
    decreases t.len() - i,
{
    if i < 0 || i >= t.len() {
        None
    } else if t[i] == 34 {
        Some((Seq::<u8>::empty(), i + 1))
    } else if t[i] == 92 {
        if i + 2 > t.len() {
            None
        } else if t[i + 1] == 117 {
            if i + 6 > t.len() {
                None
            } else {
                match hex4(t, i + 2) {
                    None => None,
                    Some(v) => if 0xD800 <= v < 0xE000 {
                        None
                    } else {
                        match parse_str(t, i + 6) {
                            None => None,
                            Some((s, j)) => Some((utf8_of(v) + s, j)),
                        }
                    },
                }
            }
        } else {
            match unesc(t[i + 1]) {
                None => None,
                Some(c) => match parse_str(t, i + 2) {
                    None => None,
                    Some((s, j)) => Some((seq![c] + s, j)),
                },
            }
        }
    } else {
        match parse_str(t, i + 1) {
            None => None,
            Some((s, j)) => Some((seq![t[i]] + s, j)),
        }
    }
}

/// Position bounds of the string parse.
pub proof fn lemma_parse_str_bounds(t: Seq<u8>, i: int)
    requires
        0 <= i,
    ensures
        match parse_str(t, i) {
            None => true,
            Some((s, j)) => i < j <= t.len(),
        },
    decreases t.len() - i,
{
    if 0 <= i < t.len() {
        if t[i] == 92 {
            if i + 2 <= t.len() {
                lemma_parse_str_bounds(t, i + 2);
            }
            if i + 6 <= t.len() {
                lemma_parse_str_bounds(t, i + 6);
            }
        } else if t[i] != 34 {
            lemma_parse_str_bounds(t, i + 1);
        }
    }
}

/// Skip one JSON value: a state machine over nesting depth, in-string and
/// escape state, ending just before the `,` or `}` that closes the member.
pub open spec fn skip_val(t: Seq<u8>, i: int, depth: int, in_str: bool, esc: bool) -> Option<int>
    decreases t.len() - i,
{
    if i < 0 || i >= t.len() {
        None
    } else if esc {
        skip_val(t, i + 1, depth, in_str, false)
    } else if in_str {
        if t[i] == 92 {
            skip_val(t, i + 1, depth, true, true)
        } else if t[i] == 34 {
            skip_val(t, i + 1, depth, false, false)
        } else {
            skip_val(t, i + 1, depth, true, false)
        }
    } else if depth == 0 && (t[i] == 44 || t[i] == 125) {
        Some(i)
    } else if t[i] == 34 {
        skip_val(t, i + 1, depth, true, false)
    } else if t[i] == 123 || t[i] == 91 {
        skip_val(t, i + 1, depth + 1, false, false)
    } else if t[i] == 125 || t[i] == 93 {
        if depth <= 0 {
            None
        } else {
            skip_val(t, i + 1, depth - 1, false, false)
        }
    } else {
        skip_val(t, i + 1, depth, false, false)
    }
}

/// Position bounds of the value skip.
pub proof fn lemma_skip_val_bounds(t: Seq<u8>, i: int, depth: int, in_str: bool, esc: bool)
    requires
        0 <= i,
    ensures
        match skip_val(t, i, depth, in_str, esc) {
            None => true,
            Some(e) => i <= e < t.len(),
        },
    decreases t.len() - i,
{
    if 0 <= i < t.len() {
        lemma_skip_val_bounds(t, i + 1, depth, in_str, false);
        lemma_skip_val_bounds(t, i + 1, depth, true, true);
        lemma_skip_val_bounds(t, i + 1, depth, false, false);
        lemma_skip_val_bounds(t, i + 1, depth, true, false);
        lemma_skip_val_bounds(t, i + 1, depth + 1, false, false);
        lemma_skip_val_bounds(t, i + 1, depth - 1, false, false);
    }
}

/// Parse the members of the `repos` object, from a position holding either
/// its closing brace or the first member's opening quote: the name/path
/// pairs in document order and the position just after the closing brace.
pub open spec fn parse_pairs(t: Seq<u8>, i: int) -> Option<(Seq<(Seq<u8>, Seq<u8>)>, int)>
    decreases t.len() - i,
{
    if i < 0 || i >= t.len() {
        None
    } else if t[i] == 125 {
        Some((Seq::<(Seq<u8>, Seq<u8>)>::empty(), i + 1))
    } else if t[i] != 34 {
        None
    } else {
        match parse_str(t, i + 1) {
            None => None,
            Some((name, j)) => {
                let k = skip_ws(t, j);
                if k >= t.len() || t[k] != 58 {
                    None
                } else {
                    let k2 = skip_ws(t, k + 1);
                    if k2 >= t.len() || t[k2] != 34 {
                        None
                    } else {
                        match parse_str(t, k2 + 1) {
                            None => None,
                            Some((path, j2)) => {
                                let k3 = skip_ws(t, j2);
                                if k3 >= t.len() {
                                    None
                                } else if t[k3] == 125 {
                                    Some((seq![(name, path)], k3 + 1))
                                } else if t[k3] == 44 {
                                    let k4 = skip_ws(t, k3 + 1);
                                    proof {
                                        lemma_parse_str_bounds(t, i + 1);
                                        lemma_skip_ws_bounds(t, j);
                                        lemma_skip_ws_bounds(t, k + 1);
                                        lemma_parse_str_bounds(t, k2 + 1);
                                        lemma_skip_ws_bounds(t, j2);
                                        lemma_skip_ws_bounds(t, k3 + 1);
                                    }
                                    match parse_pairs(t, k4) {
                                        None => None,
                                        Some((rest, e)) => Some((seq![(name, path)] + rest, e)),
                                    }
                                } else {
                                    None
                                }
                            },
                        }
                    }
                }
            },
        }
    }
}

/// Position bounds of the member-list parse.
pub proof fn lemma_parse_pairs_bounds(t: Seq<u8>, i: int)
    requires
        0 <= i,
    ensures
        match parse_pairs(t, i) {
            None => true,
            Some((prs, e)) => i < e <= t.len(),
        },
    decreases t.len() - i,
{
    if 0 <= i < t.len() && t[i] == 34 {
        match parse_str(t, i + 1) {
            None => {},
            Some((name, j)) => {
                lemma_parse_str_bounds(t, i + 1);
                let k = skip_ws(t, j);
                lemma_skip_ws_bounds(t, j);
                if k < t.len() && t[k] == 58 {
                    let k2 = skip_ws(t, k + 1);
                    lemma_skip_ws_bounds(t, k + 1);
                    if k2 < t.len() && t[k2] == 34 {
                        match parse_str(t, k2 + 1) {
                            None => {},
                            Some((path, j2)) => {
                                lemma_parse_str_bounds(t, k2 + 1);
                                let k3 = skip_ws(t, j2);
                                lemma_skip_ws_bounds(t, j2);
                                if k3 < t.len() && t[k3] == 44 {
                                    let k4 = skip_ws(t, k3 + 1);
                                    lemma_skip_ws_bounds(t, k3 + 1);
                                    lemma_parse_pairs_bounds(t, k4);
                                }
                            },
                        }
                    }
                }
            },
        }
    }
}

/// The key of the one meaningful member of the top-level object.
pub open spec fn repos_key() -> Seq<u8> {
    seq![114u8, 101u8, 112u8, 111u8, 115u8]
}

/// Parse the members of the top-level object, from a position holding
/// either its closing brace or a member key's opening quote. `acc` carries
/// the pairs of the last `repos` member seen so far; members under any other
/// key are skipped.
pub open spec fn parse_top(
    t: Seq<u8>,
    i: int,
    acc: Option<Seq<(Seq<u8>, Seq<u8>)>>,
) -> Option<(Option<Seq<(Seq<u8>, Seq<u8>)>>, int)>
    decreases t.len() - i,
{
    if i < 0 || i >= t.len() {
        None
    } else if t[i] == 125 {
        Some((acc, i + 1))
    } else if t[i] != 34 {
        None
    } else {
        match parse_str(t, i + 1) {
            None => None,
            Some((key, j)) => {
                let k = skip_ws(t, j);
                if k >= t.len() || t[k] != 58 {
                    None
                } else {
                    let k2 = skip_ws(t, k + 1);
                    if key == repos_key() {
                        if k2 >= t.len() || t[k2] != 123 {
                            None
                        } else {
                            let k3 = skip_ws(t, k2 + 1);
                            match parse_pairs(t, k3) {
                                None => None,
                                Some((prs, e)) => {
                                    let k4 = skip_ws(t, e);
                                    if k4 >= t.len() {
                                        None
                                    } else if t[k4] == 125 {
                                        Some((Some(prs), k4 + 1))
                                    } else if t[k4] == 44 {
                                        let k5 = skip_ws(t, k4 + 1);
                                        proof {
                                            lemma_parse_str_bounds(t, i + 1);
                                            lemma_skip_ws_bounds(t, j);
                                            lemma_skip_ws_bounds(t, k + 1);
                                            lemma_skip_ws_bounds(t, k2 + 1);
                                            lemma_parse_pairs_bounds(t, k3);
                                            lemma_skip_ws_bounds(t, e);
                                            lemma_skip_ws_bounds(t, k4 + 1);
                                        }
                                        parse_top(t, k5, Some(prs))
                                    } else {
                                        None
                                    }
                                },
                            }
                        }
                    } else {
                        match skip_val(t, k2, 0, false, false) {
                            None => None,
                            Some(e) => {
                                if t[e] == 125 {
                                    Some((acc, e + 1))
                                } else {
                                    let k5 = skip_ws(t, e + 1);
                                    proof {
                                        lemma_parse_str_bounds(t, i + 1);
                                        lemma_skip_ws_bounds(t, j);
                                        lemma_skip_ws_bounds(t, k + 1);
                                        lemma_skip_val_bounds(t, k2, 0, false, false);
                                        lemma_skip_ws_bounds(t, e + 1);
                                    }
                                    parse_top(t, k5, acc)
                                }
                            },
                        }
                    }
                }
            },
        }
    }
}

/// Parse a whole document: the name/path pairs of its `repos` member, or
/// `None` when the document is malformed or has no `repos` member.
pub open spec fn spec_parse(t: Seq<u8>) -> Option<Seq<(Seq<u8>, Seq<u8>)>> {
    let i = skip_ws(t, 0);
    if i >= t.len() || t[i] != 123 {
        None
    } else {
        match parse_top(t, skip_ws(t, i + 1), None) {
            None => None,
            Some((acc, e)) => {
                if skip_ws(t, e) == t.len() {
                    acc
                } else {
                    None
                }
            },
        }
    }
}

/// The escape of one byte: quote and backslash get a backslash prefix,
/// every other byte stands for itself.
pub open spec fn esc_char(c: u8) -> Seq<u8> {
    if c == 34 || c == 92 {
        seq![92u8, c]
    } else {
        seq![c]
    }
}

/// The escaped form of a byte string.
pub open spec fn esc(s: Seq<u8>) -> Seq<u8>
    decreases s.len(),
{
    if s.len() == 0 {
        Seq::<u8>::empty()
    } else {
        esc_char(s[0]) + esc(s.drop_first())
    }
}

/// Escaping distributes over concatenation.
pub proof fn lemma_esc_app(a: Seq<u8>, b: Seq<u8>)
    ensures
        esc(a + b) == esc(a) + esc(b),
    decreases a.len(),
{
    if a.len() == 0 {
        assert(a + b =~= b);
        assert(esc(a) + esc(b) =~= esc(b));
    } else {
        assert((a + b).drop_first() =~= a.drop_first() + b);
        assert((a + b)[0] == a[0]);
        lemma_esc_app(a.drop_first(), b);
        assert(esc_char(a[0]) + (esc(a.drop_first()) + esc(b)) =~= (esc_char(a[0]) + esc(
            a.drop_first(),
        )) + esc(b));
    }
}

/// A string with no quote or backslash escapes to itself.
pub proof fn lemma_esc_id(s: Seq<u8>)
    requires
        forall|k: int| 0 <= k < s.len() ==> s[k] != 34 && s[k] != 92,
    ensures
        esc(s) == s,
    decreases s.len(),
{
    if s.len() == 0 {
        assert(esc(s) =~= s);
    } else {
        lemma_esc_id(s.drop_first());
        assert(esc(s) =~= s);
    }
}

/// One encoded member: the quoted escaped name, a colon, the quoted escaped
/// path.
pub open spec fn enc_member(name: Seq<u8>, path: Seq<u8>) -> Seq<u8> {
    seq![34u8] + esc(name) + seq![34u8, 58u8, 34u8] + esc(path) + seq![34u8]
}

/// The encoded member list, comma-separated.
pub open spec fn enc_members(m: Seq<(Seq<u8>, Seq<u8>)>) -> Seq<u8>
    decreases m.len(),
{
    if m.len() == 0 {
        Seq::<u8>::empty()
    } else if m.len() == 1 {
        enc_member(m[0].0, m[0].1)
    } else {
        enc_member(m[0].0, m[0].1) + seq![44u8] + enc_members(m.drop_first())
    }
}

/// The opening of the document, up to and including the brace of the
/// `repos` object.
pub open spec fn enc_header() -> Seq<u8> {
    seq![123u8, 34u8, 114u8, 101u8, 112u8, 111u8, 115u8, 34u8, 58u8, 123u8]
}

/// The encoded document for an index model.
pub open spec fn spec_encode(m: Seq<(Seq<u8>, Seq<u8>)>) -> Seq<u8> {
    enc_header() + enc_members(m) + seq![125u8, 125u8]
}

/// Parsing a string from an encoded, quoted position recovers the original
/// bytes: at `i` the text holds the escaped string followed by its closing
/// quote.
proof fn lemma_parse_str_enc(t: Seq<u8>, i: int, s: Seq<u8>)
    requires
        0 <= i,
        i + esc(s).len() + 1 <= t.len(),
        t.subrange(i, i + esc(s).len()) == esc(s),
        t[i + esc(s).len()] == 34,
    ensures
        parse_str(t, i) == Some((s, i + esc(s).len() + 1)),
    decreases s.len(),
{
    if s.len() == 0 {
        assert(t[i] == 34);
    } else {
        let c = s[0];
        let s1 = s.drop_first();
        assert(esc(s) == esc_char(c) + esc(s1));
        let e1 = esc(s1);
        if c == 34 || c == 92 {
            assert(t[i] == t.subrange(i, i + esc(s).len())[0]);
            assert(t[i] == 92);
            assert(t[i + 1] == t.subrange(i, i + esc(s).len())[1]);
            assert(t[i + 1] == c);
            assert(unesc(c) == Some(c));
            assert(t.subrange(i + 2, i + 2 + e1.len()) =~= esc(s1)) by {
                assert forall|k: int| 0 <= k < e1.len() implies t.subrange(
                    i + 2,
                    i + 2 + e1.len(),
                )[k] == esc(s1)[k] by {
                    assert(t[i + 2 + k] == t.subrange(i, i + esc(s).len())[2 + k]);
                }
            }
            assert(t[i + 2 + e1.len()] == 34);
            lemma_parse_str_enc(t, i + 2, s1);
            assert(seq![c] + s1 =~= s);
        } else {
            assert(t[i] == t.subrange(i, i + esc(s).len())[0]);
            assert(t[i] == c);
            assert(t.subrange(i + 1, i + 1 + e1.len()) =~= esc(s1)) by {
                assert forall|k: int| 0 <= k < e1.len() implies t.subrange(
                    i + 1,
                    i + 1 + e1.len(),
                )[k] == esc(s1)[k] by {
                    assert(t[i + 1 + k] == t.subrange(i, i + esc(s).len())[1 + k]);
                }
            }
            assert(t[i + 1 + e1.len()] == 34);
            lemma_parse_str_enc(t, i + 1, s1);
            assert(seq![c] + s1 =~= s);
        }
    }
}

/// Parsing the member region of an encoded document recovers the model: at
/// `i` the text holds the encoded members followed by the closing brace.
proof fn lemma_parse_pairs_enc(t: Seq<u8>, i: int, m: Seq<(Seq<u8>, Seq<u8>)>)
    requires
        0 <= i,
        i + enc_members(m).len() + 1 <= t.len(),
        t.subrange(i, i + enc_members(m).len()) == enc_members(m),
        t[i + enc_members(m).len()] == 125,
    ensures
        parse_pairs(t, i) == Some((m, i + enc_members(m).len() + 1)),
    decreases m.len(),
{
    let em = enc_members(m);
    if m.len() == 0 {
        assert(t[i] == 125);
        assert(Seq::<(Seq<u8>, Seq<u8>)>::empty() =~= m);
    } else {
        let name = m[0].0;
        let path = m[0].1;
        let one = enc_member(name, path);
        let en = esc(name);
        let ep = esc(path);
        // positions within the member
        let jq = i + 1 + en.len();  // closing quote of the name
        let pq = jq + 3;  // opening position of the path body
        let j2 = pq + ep.len() + 1;  // just after the path's closing quote
        assert(one.len() == en.len() + ep.len() + 5);
        if m.len() == 1 {
            assert(em == one);
        } else {
            assert(em == one + seq![44u8] + enc_members(m.drop_first()));
        }
        assert forall|k: int| 0 <= k < one.len() implies t[i + k] == one[k] by {
            assert(t[i + k] == t.subrange(i, i + em.len())[k]);
            if m.len() > 1 {
                assert(em[k] == (one + seq![44u8])[k]);
            }
        }
        assert(t[i] == one[0]);
        assert(one[0] == 34);
        assert(t.subrange(i + 1, i + 1 + en.len()) =~= en) by {
            assert forall|k: int| 0 <= k < en.len() implies t[i + 1 + k] == en[k] by {
                assert(t[i + 1 + k] == one[1 + k]);
                assert(one[1 + k] == (seq![34u8] + en)[1 + k]);
            }
        }
        assert(t[jq] == one[1 + en.len() as int]);
        assert(one[1 + en.len() as int] == 34);
        lemma_parse_str_enc(t, i + 1, name);
        assert(parse_str(t, i + 1) == Some((name, jq + 1)));
        assert(t[jq + 1] == one[2 + en.len() as int]);
        assert(one[2 + en.len() as int] == 58);
        assert(!is_ws(t[jq + 1]));
        assert(skip_ws(t, jq + 1) == jq + 1);
        assert(t[jq + 2] == one[3 + en.len() as int]);
        assert(one[3 + en.len() as int] == 34);
        assert(skip_ws(t, jq + 2) == jq + 2);
        assert(t.subrange(pq, pq + ep.len()) =~= ep) by {
            assert forall|k: int| 0 <= k < ep.len() implies t[pq + k] == ep[k] by {
                assert(t[pq + k] == one[4 + en.len() as int + k]);
                assert(one[4 + en.len() as int + k] == ((seq![34u8] + en + seq![34u8, 58u8, 34u8]) + ep)[4
                    + en.len() as int + k]);
            }
        }
        assert(t[pq + ep.len()] == one[one.len() as int - 1]);
        assert(one[one.len() as int - 1] == 34);
        lemma_parse_str_enc(t, pq, path);
        assert(parse_str(t, pq) == Some((path, j2)));
        if m.len() == 1 {
            assert(t[j2] == 125);
            assert(skip_ws(t, j2) == j2);
            assert(parse_pairs(t, i) == Some((seq![(name, path)], j2 + 1)));
            assert(seq![(name, path)] =~= m);
        } else {
            let rest = m.drop_first();
            assert(t[j2] == em[one.len() as int]);
            assert(em[one.len() as int] == 44);
            assert(skip_ws(t, j2) == j2);
            assert(t[j2 + 1] == em[one.len() as int + 1]);
            assert(em[one.len() as int + 1] == enc_members(rest)[0]);
            assert(enc_members(rest).len() > 0) by {
                lemma_enc_members_nonempty(rest);
            }
            assert(enc_members(rest)[0] == 34) by {
                lemma_enc_members_first(rest);
            }
            assert(!is_ws(t[j2 + 1]));
            assert(skip_ws(t, j2 + 1) == j2 + 1);
            assert(t.subrange(j2 + 1, j2 + 1 + enc_members(rest).len()) =~= enc_members(rest)) by {
                assert forall|k: int| 0 <= k < enc_members(rest).len() implies t[j2 + 1 + k]
                    == enc_members(rest)[k] by {
                    assert(t[j2 + 1 + k] == t.subrange(i, i + em.len() as int)[one.len() as int + 1 + k]);
                    assert(em[one.len() as int + 1 + k] == enc_members(rest)[k]);
                }
            }
            assert(t[j2 + 1 + enc_members(rest).len()] == 125);
            lemma_parse_pairs_enc(t, j2 + 1, rest);
            assert(parse_pairs(t, j2 + 1) == Some((rest, j2 + 2 + enc_members(rest).len())));
            assert(seq![(name, path)] + rest =~= m);
        }
    }
}

/// An encoded member list for a nonempty model is nonempty.
proof fn lemma_enc_members_nonempty(m: Seq<(Seq<u8>, Seq<u8>)>)
    requires
        m.len() > 0,
    ensures
        enc_members(m).len() > 0,
{
}

/// An encoded member list for a nonempty model opens with a quote.
proof fn lemma_enc_members_first(m: Seq<(Seq<u8>, Seq<u8>)>)
    requires
        m.len() > 0,
    ensures
        enc_members(m)[0] == 34,
{
    let one = enc_member(m[0].0, m[0].1);
    assert(one[0] == 34);
}

/// Parsing an encoded document recovers the model's pairs exactly.
#[verifier::rlimit(100)]
pub proof fn lemma_parse_encode(m: Seq<(Seq<u8>, Seq<u8>)>)
    ensures
        spec_parse(spec_encode(m)) == Some(m),
{
    let t = spec_encode(m);
    let em = enc_members(m);
    let h = enc_header();
    assert(h.len() == 10);
    assert(t.len() == 12 + em.len());
    assert forall|k: int| 0 <= k < 10 implies t[k] == h[k] by {
        assert(t[k] == ((h + em) + seq![125u8, 125u8])[k]);
    }
    assert forall|k: int| 0 <= k < em.len() implies t[10 + k] == em[k] by {
        assert(t[10 + k] == ((h + em) + seq![125u8, 125u8])[10 + k]);
    }
    assert(t[10 + em.len() as int] == 125);
    assert(t[11 + em.len() as int] == 125);
    assert(t[0] == 123);
    assert(skip_ws(t, 0) == 0);
    assert(t[1] == 34);
    assert(skip_ws(t, 1) == 1);
    let rk = repos_key();
    assert(forall|k: int| 0 <= k < rk.len() ==> rk[k] != 34 && rk[k] != 92);
    lemma_esc_id(rk);
    assert(t.subrange(2, 7) =~= esc(rk)) by {
        assert(t[2] == 114 && t[3] == 101 && t[4] == 112 && t[5] == 111 && t[6] == 115);
    }
    assert(t[7] == 34);
    lemma_parse_str_enc(t, 2, rk);
    assert(parse_str(t, 2) == Some((rk, 8int)));
    assert(t[8] == 58);
    assert(skip_ws(t, 8) == 8);
    assert(t[9] == 123);
    assert(skip_ws(t, 9) == 9);
    if m.len() == 0 {
        assert(t[10] == 125);
        assert(skip_ws(t, 10) == 10);
    } else {
        lemma_enc_members_first(m);
        assert(t[10] == 34);
        assert(skip_ws(t, 10) == 10);
    }
    assert(t.subrange(10, 10 + em.len() as int) =~= em);
    lemma_parse_pairs_enc(t, 10, m);
    assert(parse_pairs(t, 10) == Some((m, 11 + em.len() as int)));
    let e = 11 + em.len() as int;
    assert(t[e] == 125);
    assert(skip_ws(t, e) == e);
    assert(parse_top(t, 1, None) == Some((Some(m), t.len() as int)));
    assert(skip_ws(t, t.len() as int) == t.len());
}

/// Folding parsed pairs into an index model, first to last: a later pair
/// with an already-seen name overwrites it.
pub open spec fn spec_from_pairs(s: Seq<(Seq<u8>, Seq<u8>)>) -> Seq<(Seq<u8>, Seq<u8>)>
    decreases s.len(),
{
    if s.len() == 0 {
        Seq::<(Seq<u8>, Seq<u8>)>::empty()
    } else {
        spec_insert(spec_from_pairs(s.drop_last()), s.last().0, s.last().1)
    }
}

/// A model with pairwise-distinct names folds to itself.
pub proof fn lemma_from_pairs_id(m: Seq<(Seq<u8>, Seq<u8>)>)
    requires
        crate::index::names_unique(m),
    ensures
        spec_from_pairs(m) == m,
    decreases m.len(),
{
    if m.len() == 0 {
        assert(spec_from_pairs(m) =~= m);
    } else {
        let pre = m.drop_last();
        assert(crate::index::names_unique(pre)) by {
            assert(forall|i: int| 0 <= i < pre.len() ==> pre[i] == m[i]);
        }
        lemma_from_pairs_id(pre);
        assert(!crate::index::has_name(pre, m.last().0)) by {
            if crate::index::has_name(pre, m.last().0) {
                let i = choose|i: int| 0 <= i < pre.len() && pre[i].0 == m.last().0;
                assert(m[i].0 == m[m.len() - 1].0);
            }
        }
        crate::index::lemma_insert_props(pre, m.last().0, m.last().1);
        assert(pre.push((m.last().0, m.last().1)) =~= m);
    }
}

/// What loading file contents yields: an absent file and an unparsable
/// document both give the empty model; a well-formed document gives its
/// pairs folded in order.
pub open spec fn spec_loaded(contents: Option<Seq<u8>>) -> Seq<(Seq<u8>, Seq<u8>)> {
    match contents {
        None => Seq::<(Seq<u8>, Seq<u8>)>::empty(),
        Some(b) => match spec_parse(b) {
            None => Seq::<(Seq<u8>, Seq<u8>)>::empty(),
            Some(prs) => spec_from_pairs(prs),
        },
    }
}

/// Saving an index and loading the result returns the same mapping.
pub proof fn lemma_save_then_load(m: Seq<(Seq<u8>, Seq<u8>)>)
    requires
        crate::index::names_unique(m),
    ensures
        spec_loaded(Some(spec_encode(m))) == m,
{
    lemma_parse_encode(m);
    lemma_from_pairs_id(m);
}

/// Decide JSON whitespace.
fn is_ws_b(c: u8) -> (r: bool)
    ensures
        r == is_ws(c),
{
    c == 32 || c == 9 || c == 10 || c == 13
}

/// Find the end of a whitespace run.
fn ws_end(t: &Vec<u8>, i: usize) -> (r: usize)
    requires
        i <= t@.len(),
    ensures
        r as int == skip_ws(t@, i as int),
        i <= r <= t@.len(),
    decreases t@.len() - i,
{
    if i < t.len() && is_ws_b(t[i]) {
        ws_end(t, i + 1)
    } else {
        i
    }
}

/// Decode one escape character.
fn unesc_b(c: u8) -> (r: Option<u8>)
    ensures
        r == unesc(c),
{
    if c == 34 {
        Some(34)
    } else if c == 92 {
        Some(92)
    } else if c == 47 {
        Some(47)
    } else if c == 110 {
        Some(10)
    } else if c == 116 {
        Some(9)
    } else if c == 114 {
        Some(13)
    } else if c == 98 {
        Some(8)
    } else if c == 102 {
        Some(12)
    } else {
        None
    }
}

/// Decode one hexadecimal digit.
fn hex_digit_b(c: u8) -> (r: Option<u8>)
    ensures
        match r {
            None => hex_digit(c) is None,
            Some(v) => hex_digit(c) == Some(v as int) && v < 16,
        },
{
    if 48 <= c && c <= 57 {
        Some(c - 48)
    } else if 97 <= c && c <= 102 {
        Some(c - 87)
    } else if 65 <= c && c <= 70 {
        Some(c - 55)
    } else {
        None
    }
}

/// Decode the four hexadecimal digits at `i`.
fn hex4_b(t: &Vec<u8>, i: usize) -> (r: Option<u32>)
    requires
        i + 4 <= t@.len(),
    ensures
        match r {
            None => hex4(t@, i as int) is None,
            Some(v) => hex4(t@, i as int) == Some(v as int) && v < 0x10000,
        },
{
    let n = t.len();
    proof {
        assert(i + 4 <= n);
    }
    let a = match hex_digit_b(t[i]) {
        None => return None,
        Some(a) => a,
    };
    let b = match hex_digit_b(t[i + 1]) {
        None => return None,
        Some(b) => b,
    };
    let c = match hex_digit_b(t[i + 2]) {
        None => return None,
        Some(c) => c,
    };
    let d = match hex_digit_b(t[i + 3]) {
        None => return None,
        Some(d) => d,
    };
    Some((a as u32) * 4096 + (b as u32) * 256 + (c as u32) * 16 + (d as u32))
}

/// Read a string body from just after the opening quote.
fn read_str(t: &Vec<u8>, i: usize) -> (r: Option<(Vec<u8>, usize)>)
    requires
        i <= t@.len(),
    ensures
        match r {
            None => parse_str(t@, i as int) is None,
            Some((s, j)) => parse_str(t@, i as int) == Some((s@, j as int)) && j <= t@.len(),
        },
    decreases t@.len() - i,
{
    if i >= t.len() {
        return None;
    }
    let c = t[i];
    if c == 34 {
        let s: Vec<u8> = Vec::new();
        proof {
            assert(s@ =~= Seq::<u8>::empty());
        }
        return Some((s, i + 1));
    }
    if c == 92 {
        if t.len() - i < 2 {
            return None;
        }
        if t[i + 1] == 117 {
            if t.len() - i < 6 {
                return None;
            }
            let v = match hex4_b(t, i + 2) {
                None => return None,
                Some(v) => v,
            };
            if 0xD800 <= v && v < 0xE000 {
                return None;
            }
            return match read_str(t, i + 6) {
                None => None,
                Some((s, j)) => {
                    let ghost s0 = s@;
                    let mut s = s;
                    if v < 0x80 {
                        s.insert(0, v as u8);
                    } else if v < 0x800 {
                        s.insert(0, (0x80 + v % 64) as u8);
                        s.insert(0, (0xC0 + v / 64) as u8);
                    } else {
                        s.insert(0, (0x80 + v % 64) as u8);
                        s.insert(0, (0x80 + (v / 64) % 64) as u8);
                        s.insert(0, (0xE0 + v / 4096) as u8);
                    }
                    proof {
                        assert(s@ =~= utf8_of(v as int) + s0);
                    }
                    Some((s, j))
                },
            };
        }
        match unesc_b(t[i + 1]) {
            None => None,
            Some(cc) => match read_str(t, i + 2) {
                None => None,
                Some((s, j)) => {
                    let ghost s0 = s@;
                    let mut s = s;
                    s.insert(0, cc);
                    proof {
                        assert(s@ =~= seq![cc] + s0);
                    }
                    Some((s, j))
                },
            },
        }
    } else {
        match read_str(t, i + 1) {
            None => None,
            Some((s, j)) => {
                let ghost s0 = s@;
                let mut s = s;
                s.insert(0, c);
                proof {
                    assert(s@ =~= seq![c] + s0);
                }
                Some((s, j))
            },
        }
    }
}

/// Skip one JSON value.
fn skip_value(t: &Vec<u8>, i: usize, depth: usize, in_str: bool, esc_st: bool) -> (r: Option<
    usize,
>)
    requires
        i <= t@.len(),
        depth <= i,
    ensures
        match r {
            None => skip_val(t@, i as int, depth as int, in_str, esc_st) is None,
            Some(e) => skip_val(t@, i as int, depth as int, in_str, esc_st) == Some(e as int) && e
                < t@.len(),
        },
    decreases t@.len() - i,
{
    if i >= t.len() {
        return None;
    }
    let c = t[i];
    if esc_st {
        skip_value(t, i + 1, depth, in_str, false)
    } else if in_str {
        if c == 92 {
            skip_value(t, i + 1, depth, true, true)
        } else if c == 34 {
            skip_value(t, i + 1, depth, false, false)
        } else {
            skip_value(t, i + 1, depth, true, false)
        }
    } else if depth == 0 && (c == 44 || c == 125) {
        Some(i)
    } else if c == 34 {
        skip_value(t, i + 1, depth, true, false)
    } else if c == 123 || c == 91 {
        skip_value(t, i + 1, depth + 1, false, false)
    } else if c == 125 || c == 93 {
        if depth == 0 {
            None
        } else {
            skip_value(t, i + 1, depth - 1, false, false)
        }
    } else {
        skip_value(t, i + 1, depth, false, false)
    }
}

/// The model of a vector of parsed name/path pairs.
pub open spec fn pairs_view(s: Seq<(Vec<u8>, Vec<u8>)>) -> Seq<(Seq<u8>, Seq<u8>)> {
    s.map_values(|pr: (Vec<u8>, Vec<u8>)| (pr.0@, pr.1@))
}

/// Read the members of the `repos` object.
fn read_pairs(t: &Vec<u8>, i: usize) -> (r: Option<(Vec<(Vec<u8>, Vec<u8>)>, usize)>)
    requires
        i <= t@.len(),
    ensures
        match r {
            None => parse_pairs(t@, i as int) is None,
            Some((v, j)) => parse_pairs(t@, i as int) == Some((pairs_view(v@), j as int)) && j
                <= t@.len(),
        },
    decreases t@.len() - i,
{
    if i >= t.len() {
        return None;
    }
    if t[i] == 125 {
        let v: Vec<(Vec<u8>, Vec<u8>)> = Vec::new();
        proof {
            assert(pairs_view(v@) =~= Seq::<(Seq<u8>, Seq<u8>)>::empty());
        }
        return Some((v, i + 1));
    }
    if t[i] != 34 {
        return None;
    }
    match read_str(t, i + 1) {
        None => None,
        Some((name, j)) => {
            let k = ws_end(t, j);
            if k >= t.len() || t[k] != 58 {
                return None;
            }
            let k2 = ws_end(t, k + 1);
            if k2 >= t.len() || t[k2] != 34 {
                return None;
            }
            match read_str(t, k2 + 1) {
                None => None,
                Some((path, j2)) => {
                    let k3 = ws_end(t, j2);
                    if k3 >= t.len() {
                        return None;
                    }
                    if t[k3] == 125 {
                        let mut v: Vec<(Vec<u8>, Vec<u8>)> = Vec::new();
                        let ghost nv = name@;
                        let ghost pv = path@;
                        v.push((name, path));
                        proof {
                            assert(pairs_view(v@) =~= seq![(nv, pv)]);
                        }
                        return Some((v, k3 + 1));
                    }
                    if t[k3] == 44 {
                        let k4 = ws_end(t, k3 + 1);
                        proof {
                            lemma_parse_str_bounds(t@, i as int + 1);
                            lemma_parse_str_bounds(t@, k2 as int + 1);
                        }
                        match read_pairs(t, k4) {
                            None => None,
                            Some((rest, e)) => {
                                let ghost restv = pairs_view(rest@);
                                let ghost nv = name@;
                                let ghost pv = path@;
                                let mut rest = rest;
                                rest.insert(0, (name, path));
                                proof {
                                    assert(pairs_view(rest@) =~= seq![(nv, pv)] + restv);
                                }
                                Some((rest, e))
                            },
                        }
                    } else {
                        None
                    }
                },
            }
        },
    }
}

/// Read the members of the top-level object, skipping members under any key
/// but `repos`.
fn read_top(t: &Vec<u8>, i: usize, acc: Option<Vec<(Vec<u8>, Vec<u8>)>>) -> (r: Option<
    (Option<Vec<(Vec<u8>, Vec<u8>)>>, usize),
>)
    requires
        i <= t@.len(),
    ensures
        match r {
            None => parse_top(t@, i as int, opt_pairs_view(acc)) is None,
            Some((a, j)) => parse_top(t@, i as int, opt_pairs_view(acc)) == Some(
                (opt_pairs_view(a), j as int),
            ) && j <= t@.len(),
        },
    decreases t@.len() - i,
{
    if i >= t.len() {
        return None;
    }
    if t[i] == 125 {
        return Some((acc, i + 1));
    }
    if t[i] != 34 {
        return None;
    }
    match read_str(t, i + 1) {
        None => None,
        Some((key, j)) => {
            let k = ws_end(t, j);
            if k >= t.len() || t[k] != 58 {
                return None;
            }
            let k2 = ws_end(t, k + 1);
            let mut rk: Vec<u8> = Vec::new();
            rk.push(114);
            rk.push(101);
            rk.push(112);
            rk.push(111);
            rk.push(115);
            proof {
                assert(rk@ =~= repos_key());
            }
            if crate::bytes::bytes_eq(&key, &rk) {
                if k2 >= t.len() || t[k2] != 123 {
                    return None;
                }
                let k3 = ws_end(t, k2 + 1);
                match read_pairs(t, k3) {
                    None => None,
                    Some((prs, e)) => {
                        let k4 = ws_end(t, e);
                        if k4 >= t.len() {
                            return None;
                        }
                        if t[k4] == 125 {
                            return Some((Some(prs), k4 + 1));
                        }
                        if t[k4] == 44 {
                            let k5 = ws_end(t, k4 + 1);
                            proof {
                                lemma_parse_str_bounds(t@, i as int + 1);
                                lemma_parse_pairs_bounds(t@, k3 as int);
                            }
                            read_top(t, k5, Some(prs))
                        } else {
                            None
                        }
                    },
                }
            } else {
                proof {
                    assert(key@ != repos_key());
                }
                match skip_value(t, k2, 0, false, false) {
                    None => None,
                    Some(e) => {
                        if t[e] == 125 {
                            Some((acc, e + 1))
                        } else {
                            let k5 = ws_end(t, e + 1);
                            proof {
                                lemma_parse_str_bounds(t@, i as int + 1);
                                lemma_skip_val_bounds(t@, k2 as int, 0, false, false);
                            }
                            read_top(t, k5, acc)
                        }
                    },
                }
            }
        },
    }
}

/// Appending a member to a nonempty model appends a comma and its encoding.
proof fn lemma_enc_members_snoc(m: Seq<(Seq<u8>, Seq<u8>)>, x: (Seq<u8>, Seq<u8>))
    requires
        m.len() >= 1,
    ensures
        enc_members(m.push(x)) == enc_members(m) + seq![44u8] + enc_member(x.0, x.1),
    decreases m.len(),
{
    let mp = m.push(x);
    assert(mp[0] == m[0]);
    assert(mp.drop_first() =~= m.drop_first().push(x));
    if m.len() == 1 {
        assert(m.drop_first().push(x) =~= seq![x]);
        assert(enc_members(seq![x]) == enc_member(x.0, x.1));
        assert(enc_members(mp) == enc_member(m[0].0, m[0].1) + seq![44u8] + enc_member(x.0, x.1));
        assert(enc_members(m) == enc_member(m[0].0, m[0].1));
        assert(enc_member(m[0].0, m[0].1) + seq![44u8] + enc_member(x.0, x.1) =~= (enc_member(
            m[0].0,
            m[0].1,
        ) + seq![44u8]) + enc_member(x.0, x.1));
    } else {
        lemma_enc_members_snoc(m.drop_first(), x);
        assert(enc_members(mp) == enc_member(m[0].0, m[0].1) + seq![44u8] + enc_members(
            mp.drop_first(),
        ));
        assert(enc_member(m[0].0, m[0].1) + seq![44u8] + ((enc_members(m.drop_first()) + seq![44u8])
            + enc_member(x.0, x.1)) =~= ((enc_member(m[0].0, m[0].1) + seq![44u8] + enc_members(
            m.drop_first(),
        )) + seq![44u8]) + enc_member(x.0, x.1));
    }
}

/// Append the escaped form of a byte string.
fn push_escaped(out: &mut Vec<u8>, s: &Vec<u8>)
    ensures
        final(out)@ == old(out)@ + esc(s@),
{
    let n = s.len();
    let mut i: usize = 0;
    proof {
        assert(s@.take(0) =~= Seq::<u8>::empty());
        assert(out@ =~= out@ + esc(s@.take(0)));
    }
    while i < n
        invariant
            n == s@.len(),
            i <= n,
            out@ == old(out)@ + esc(s@.take(i as int)),
        decreases n - i,
    {
        let c = s[i];
        if c == 34 || c == 92 {
            out.push(92);
        }
        out.push(c);
        proof {
            lemma_esc_app(s@.take(i as int), seq![s@[i as int]]);
            assert(s@.take(i as int + 1) =~= s@.take(i as int) + seq![s@[i as int]]);
            assert(seq![s@[i as int]].drop_first() =~= Seq::<u8>::empty());
            assert(seq![s@[i as int]][0] == s@[i as int]);
            assert(esc(seq![s@[i as int]]) == esc_char(s@[i as int]) + esc(Seq::<u8>::empty()));
            assert(esc(Seq::<u8>::empty()) == Seq::<u8>::empty());
            assert(esc_char(s@[i as int]) + Seq::<u8>::empty() =~= esc_char(s@[i as int]));
            assert(out@ =~= old(out)@ + esc(s@.take(i as int + 1)));
        }
        i += 1;
    }
    proof {
        assert(s@.take(n as int) =~= s@);
    }
}

/// Encode an index as the persisted document.
pub fn save_bytes(idx: &crate::index::Index) -> (r: Vec<u8>)
    ensures
        r@ == spec_encode(idx@),
{
    let n = idx.len();
    let mut out: Vec<u8> = Vec::new();
    out.push(123);
    out.push(34);
    out.push(114);
    out.push(101);
    out.push(112);
    out.push(111);
    out.push(115);
    out.push(34);
    out.push(58);
    out.push(123);
    proof {
        assert(out@ =~= enc_header());
        assert(idx@.take(0) =~= Seq::<(Seq<u8>, Seq<u8>)>::empty());
        assert(out@ =~= enc_header() + enc_members(idx@.take(0)));
    }
    let mut i: usize = 0;
    while i < n
        invariant
            n == idx@.len(),
            i <= n,
            out@ == enc_header() + enc_members(idx@.take(i as int)),
        decreases n - i,
    {
        let ghost pre = out@;
        if i > 0 {
            out.push(44);
        }
        out.push(34);
        let name = idx.name_at(i);
        push_escaped(&mut out, &name);
        out.push(34);
        out.push(58);
        out.push(34);
        let path = idx.path_at(i);
        push_escaped(&mut out, &path);
        out.push(34);
        proof {
            let x = idx@[i as int];
            assert(x == (x.0, x.1));
            if i == 0 {
                assert(out@ =~= pre + enc_member(x.0, x.1));
                assert(idx@.take(1) =~= seq![x]);
                assert(enc_members(seq![x]) == enc_member(x.0, x.1));
                assert(out@ =~= enc_header() + enc_members(idx@.take(1)));
            } else {
                assert(out@ =~= pre + (seq![44u8] + enc_member(x.0, x.1)));
                lemma_enc_members_snoc(idx@.take(i as int), x);
                assert(idx@.take(i as int + 1) =~= idx@.take(i as int).push(x));
                assert(out@ =~= enc_header() + enc_members(idx@.take(i as int + 1)));
            }
        }
        i += 1;
    }
    out.push(125);
    out.push(125);
    proof {
        assert(idx@.take(n as int) =~= idx@);
        assert(out@ =~= spec_encode(idx@));
    }
    out
}

/// Build an index from the contents of the persisted file, or from its
/// absence: a missing or unparsable document yields the empty index, a
/// well-formed one yields its pairs merged in document order.
pub fn load_index(contents: Option<&Vec<u8>>) -> (r: crate::index::Index)
    ensures
        r.wf(),
        r@ == spec_loaded(
            match contents {
                None => None,
                Some(b) => Some(b@),
            },
        ),
{
    match contents {
        None => crate::index::Index::new(),
        Some(b) => {
            match parse_config(b) {
                None => crate::index::Index::new(),
                Some(pairs) => {
                    let ghost pv = pairs_view(pairs@);
                    let mut idx = crate::index::Index::new();
                    proof {
                        assert(pv.take(0) =~= Seq::<(Seq<u8>, Seq<u8>)>::empty());
                    }
                    let n = pairs.len();
                    let mut i: usize = 0;
                    while i < n
                        invariant
                            n == pairs@.len(),
                            i <= n,
                            pv == pairs_view(pairs@),
                            idx.wf(),
                            idx@ == spec_from_pairs(pv.take(i as int)),
                        decreases n - i,
                    {
                        let name = pairs[i].0.clone();
                        let path = pairs[i].1.clone();
                        idx.insert(name, path);
                        proof {
                            assert(pv.take(i as int + 1).drop_last() =~= pv.take(i as int));
                            assert(pv.take(i as int + 1).last() == pv[i as int]);
                        }
                        i += 1;
                    }
                    proof {
                        assert(pv.take(n as int) =~= pv);
                    }
                    idx
                },
            }
        },
    }
}

/// The model of an optional vector of parsed pairs.
pub open spec fn opt_pairs_view(a: Option<Vec<(Vec<u8>, Vec<u8>)>>) -> Option<
    Seq<(Seq<u8>, Seq<u8>)>,
> {
    match a {
        None => None,
        Some(v) => Some(pairs_view(v@)),
    }
}

/// Parse a whole document into name/path pairs; `None` on any malformed
/// document or when the `repos` member is missing.
pub fn parse_config(t: &Vec<u8>) -> (r: Option<Vec<(Vec<u8>, Vec<u8>)>>)
    ensures
        match r {
            None => spec_parse(t@) is None,
            Some(v) => spec_parse(t@) == Some(pairs_view(v@)),
        },
{
    let i = ws_end(t, 0);
    if i >= t.len() || t[i] != 123 {
        return None;
    }
    let j = ws_end(t, i + 1);
    match read_top(t, j, None) {
        None => None,
        Some((acc, e)) => {
            if ws_end(t, e) == t.len() {
                acc
            } else {
                None
            }
        },
    }
}

} // verus!
