//! Selector literals: a typed reference to a set of in-scope targets,
//! written `@<kind>` or `@<kind>[<body>]` in the source text.
//!
//! The kind character fixes the selector's cardinality; the bracket body is
//! kept as raw text, and only its explicit `limit=1` modifier is interpreted
//! here, by [`Selector::selects_multiple`].

use vstd::prelude::*;
use crate::errors::{LexError, LexErrorModel};
use crate::text::{
    RunClass, all_ascii_digits, ascii_digit, back_run_len, dec_value, lemma_back_run_len_le,
    lemma_dec_value_step, lemma_run_len_le, run_len, scan_back_run, scan_run, str_eq,
};

verus! {

/// The five selector kinds, one per recognized kind character.
#[derive(Clone, Copy, Debug, PartialEq, Eq, Structural)]
pub enum SelectorType {
    PlayerAll,
    EntitiesAll,
    PlayerClosest,
    PlayerRandom,
    Caller,
}

/// A parsed selector literal: its kind and its raw bracket body.
#[derive(Clone, Debug)]
pub struct Selector {
    pub selector_type: SelectorType,
    pub body: String,
}

/// The selector kind named by one character, if any.
pub open spec fn selector_type_of(c: char) -> Option<SelectorType> {
    if c == 'a' {
        Some(SelectorType::PlayerAll)
    } else if c == 'e' {
        Some(SelectorType::EntitiesAll)
    } else if c == 'p' {
        Some(SelectorType::PlayerClosest)
    } else if c == 'r' {
        Some(SelectorType::PlayerRandom)
    } else if c == 's' {
        Some(SelectorType::Caller)
    } else {
        None
    }
}

/// Whether `s` is a decimal numeral for the number one, with an optional
/// leading `+`.
pub open spec fn limit_one_value(s: Seq<char>) -> bool {
    let d = if s.len() > 0 && s[0] == '+' {
        s.skip(1)
    } else {
        s
    };
    d.len() > 0 && all_ascii_digits(d) && dec_value(d) == 1
}

/// `e` is the position of the first `=` in `item`.
pub open spec fn first_eq_at(item: Seq<char>, e: int) -> bool {
    0 <= e < item.len() && item[e] == '=' && (forall|k: int| 0 <= k < e ==> item[k] != '=')
}

/// `e` is the position of the last `=` in `item`.
pub open spec fn last_eq_at(item: Seq<char>, e: int) -> bool {
    0 <= e < item.len() && item[e] == '=' && (forall|k: int| e < k < item.len() ==> item[k] != '=')
}

/// Whether one comma-separated item is an explicit `limit=1` modifier: the
/// text before its first `=` is `limit`, and the text after its last `=` is
/// the number one.
pub open spec fn limit_one_item(item: Seq<char>) -> bool {
    exists|e1: int, e2: int|
        first_eq_at(item, e1) && last_eq_at(item, e2) && item.take(e1) == "limit"@
            && limit_one_value(item.skip(e2 + 1))
}

/// The selector body with leading and trailing bracket characters removed.
pub open spec fn trimmed_body(s: Seq<char>) -> Seq<char> {
    let lo = run_len(s, 0, RunClass::Bracket) as int;
    let hi0 = s.len() - back_run_len(s, s.len() as int, RunClass::Bracket);
    let hi = if hi0 < lo {
        lo
    } else {
        hi0
    };
    s.subrange(lo, hi)
}

/// `p` and `q` delimit one comma-separated item of `t`.
pub open spec fn item_bounds(t: Seq<char>, p: int, q: int) -> bool {
    0 <= p <= q <= t.len() && (p == 0 || t[p - 1] == ',') && (q == t.len() || t[q] == ',')
        && (forall|k: int| p <= k < q ==> t[k] != ',')
}

/// Whether some comma-separated item of the trimmed body is a `limit=1`
/// modifier.
pub open spec fn has_limit_one(body: Seq<char>) -> bool {
    exists|p: int, q: int|
        item_bounds(trimmed_body(body), p, q) && limit_one_item(
            trimmed_body(body).subrange(p, q),
        )
}

/// Whether a selector of kind `t` with bracket body `body` can match more
/// than one target: only the all-player and all-entity kinds can, and an
/// explicit `limit=1` modifier forces even those to a single target.
pub open spec fn spec_selects_multiple(t: SelectorType, body: Seq<char>) -> bool {
    match t {
        SelectorType::PlayerAll => !has_limit_one(body),
        SelectorType::EntitiesAll => !has_limit_one(body),
        SelectorType::PlayerClosest => false,
        SelectorType::PlayerRandom => false,
        SelectorType::Caller => false,
    }
}

proof fn lemma_first_eq_unique(item: Seq<char>, a: int, b: int)
    requires
        first_eq_at(item, a),
        first_eq_at(item, b),
    ensures
        a == b,
{
}

proof fn lemma_last_eq_unique(item: Seq<char>, a: int, b: int)
    requires
        last_eq_at(item, a),
        last_eq_at(item, b),
    ensures
        a == b,
{
}

impl Selector {
    /// Classifies `type_char` into a selector kind; any unrecognized
    /// character is a construction error.
    pub fn new(type_char: char, body: String) -> (r: Result<Selector, LexError>)
        ensures
            match r {
                Ok(sel) => selector_type_of(type_char) == Some(sel.selector_type) && sel.body@
                    == body@,
                Err(e) => selector_type_of(type_char) is None && e@
                    == LexErrorModel::MalformedSelector(Some(type_char)),
            },
    {
        let selector_type = if type_char == 'a' {
            SelectorType::PlayerAll
        } else if type_char == 'e' {
            SelectorType::EntitiesAll
        } else if type_char == 'p' {
            SelectorType::PlayerClosest
        } else if type_char == 'r' {
            SelectorType::PlayerRandom
        } else if type_char == 's' {
            SelectorType::Caller
        } else {
            return Err(LexError::MalformedSelector(Some(type_char)));
        };
        Ok(Selector { selector_type, body })
    }

    /// Whether this selector can match more than one target.
    pub fn selects_multiple(&self) -> (r: bool)
        ensures
            r == spec_selects_multiple(self.selector_type, self.body@),
    {
        match self.selector_type {
            SelectorType::PlayerAll => !body_has_limit_one(self.body.as_str()),
            SelectorType::EntitiesAll => !body_has_limit_one(self.body.as_str()),
            SelectorType::PlayerClosest => false,
            SelectorType::PlayerRandom => false,
            SelectorType::Caller => false,
        }
    }
}

/// Scans the comma-separated items of the trimmed body for a `limit=1`
/// modifier.
fn body_has_limit_one(body: &str) -> (r: bool)
    ensures
        r == has_limit_one(body@),
{
    let n = body.unicode_len();
    let lo = scan_run(body, n, 0, RunClass::Bracket);
    proof {
        lemma_run_len_le(body@, 0, RunClass::Bracket);
        lemma_back_run_len_le(body@, n as int, RunClass::Bracket);
    }
    let hi0 = scan_back_run(body, n, n, RunClass::Bracket);
    let hi = if hi0 < lo {
        lo
    } else {
        hi0
    };
    let ghost t = trimmed_body(body@);
    proof {
        assert(t == body@.subrange(lo as int, hi as int));
    }
    let mut p: usize = lo;
    loop
        invariant
            n == body@.len(),
            lo <= p <= hi <= n,
            t == trimmed_body(body@),
            t == body@.subrange(lo as int, hi as int),
            p == lo || body@[p - 1] == ',',
            forall|p2: int, q2: int|
                item_bounds(t, p2, q2) && p2 < p - lo ==> !limit_one_item(t.subrange(p2, q2)),
        decreases hi - p,
    {
        let q_scan = scan_run(body, n, p, RunClass::NotComma);
        let q = if q_scan < hi {
            q_scan
        } else {
            hi
        };
        let found = item_is_limit_one(body, n, p, q);
        proof {
            assert(t.subrange(p - lo, q - lo) =~= body@.subrange(p as int, q as int));
        }
        if found {
            proof {
                assert(item_bounds(t, p - lo, q - lo));
                assert(has_limit_one(body@));
            }
            return true;
        }
        proof {
            lemma_items_extend(t, p - lo, q - lo);
        }
        if q == hi {
            proof {
                assert(forall|p2: int, q2: int|
                    item_bounds(t, p2, q2) ==> p2 <= t.len() && !limit_one_item(
                        t.subrange(p2, q2),
                    ));
            }
            return false;
        }
        p = q + 1;
    }
}

/// Steps the item-checking invariant past one item: every item that starts
/// at or before `q` is the item `[p, q)` itself or an earlier one.
proof fn lemma_items_extend(t: Seq<char>, p: int, q: int)
    requires
        item_bounds(t, p, q),
        !limit_one_item(t.subrange(p, q)),
        forall|p2: int, q2: int|
            item_bounds(t, p2, q2) && p2 < p ==> !limit_one_item(t.subrange(p2, q2)),
    ensures
        forall|p2: int, q2: int|
            item_bounds(t, p2, q2) && p2 < q + 1 ==> !limit_one_item(t.subrange(p2, q2)),
{
    assert forall|p2: int, q2: int|
        item_bounds(t, p2, q2) && p2 < q + 1 implies !limit_one_item(t.subrange(p2, q2)) by {
        if p2 >= p {
            assert(p2 == p) by {
                if p2 > p {
                    assert(t[p2 - 1] == ',');
                }
            }
            assert(q2 == q) by {
                if q2 < q {
                    assert(t[q2] == ',');
                }
                if q2 > q {
                    assert(t[q] == ',');
                }
            }
        }
    }
}

/// Decides whether the item `[p, q)` of `s` is a `limit=1` modifier.
fn item_is_limit_one(s: &str, n: usize, p: usize, q: usize) -> (r: bool)
    requires
        n == s@.len(),
        p <= q <= n,
    ensures
        r == limit_one_item(s@.subrange(p as int, q as int)),
{
    let ghost item = s@.subrange(p as int, q as int);
    let e1_scan = scan_run(s, n, p, RunClass::NotEquals);
    if e1_scan >= q {
        // no `=` in the item: no position satisfies `first_eq_at`
        assert(forall|e: int| !first_eq_at(item, e));
        return false;
    }
    let e1: usize = e1_scan;
    proof {
        assert(first_eq_at(item, e1 - p));
    }
    let prefix = s.substring_char(p, e1);
    let is_limit = str_eq(prefix, "limit");
    if !is_limit {
        proof {
            assert(item.take(e1 - p) =~= s@.subrange(p as int, e1 as int));
            assert forall|a1: int, a2: int| !(first_eq_at(item, a1) && last_eq_at(item, a2)
                && item.take(a1) == "limit"@ && limit_one_value(item.skip(a2 + 1))) by {
                if first_eq_at(item, a1) {
                    lemma_first_eq_unique(item, a1, e1 - p);
                }
            }
        }
        return false;
    }
    let e2_scan = scan_back_run(s, n, q, RunClass::NotEquals);
    // the run of non-`=` characters ending at `q` cannot reach past the
    // `=` found at `e1`, so `e2_scan - 1` is a position inside the item
    assert(e2_scan > e1) by {
        if e2_scan <= e1 {
            assert(s@[e1 as int] == '=');
        }
    }
    let e2: usize = e2_scan - 1;
    proof {
        assert(s@[e2 as int] == '=');
        assert(last_eq_at(item, e2 - p));
    }
    let one = is_one_value(s, n, e2 + 1, q);
    proof {
        assert(item.skip(e2 - p + 1) =~= s@.subrange(e2 + 1, q as int));
        if one {
            assert(first_eq_at(item, e1 - p) && last_eq_at(item, e2 - p) && item.take(e1 - p)
                == "limit"@ && limit_one_value(item.skip((e2 - p) + 1)));
            assert(limit_one_item(item));
        } else {
            assert forall|a1: int, a2: int| !(first_eq_at(item, a1) && last_eq_at(item, a2)
                && item.take(a1) == "limit"@ && limit_one_value(item.skip(a2 + 1))) by {
                if first_eq_at(item, a1) && last_eq_at(item, a2) {
                    lemma_first_eq_unique(item, a1, e1 - p);
                    lemma_last_eq_unique(item, a2, e2 - p);
                }
            }
        }
    }
    one
}

/// Decides whether `s[from..to]` is a decimal numeral for one, with an
/// optional leading `+`.
fn is_one_value(s: &str, n: usize, from: usize, to: usize) -> (r: bool)
    requires
        n == s@.len(),
        from <= to <= n,
    ensures
        r == limit_one_value(s@.subrange(from as int, to as int)),
{
    let ghost whole = s@.subrange(from as int, to as int);
    let start = if from < to && s.get_char(from) == '+' {
        from + 1
    } else {
        from
    };
    let ghost d = s@.subrange(start as int, to as int);
    proof {
        if from < to && s@[from as int] == '+' {
            assert(whole.skip(1) =~= d);
        } else {
            assert(whole =~= d);
        }
    }
    if start == to {
        return false;
    }
    let mut k: usize = start;
    let mut v: u32 = 0;
    loop
        invariant
            n == s@.len(),
            start <= k <= to <= n,
            start < to,
            whole == s@.subrange(from as int, to as int),
            d == s@.subrange(start as int, to as int),
            limit_one_value(whole) == (all_ascii_digits(d) && dec_value(d) == 1),
            all_ascii_digits(d.take(k - start)),
            v == if dec_value(d.take(k - start)) < 2 {
                dec_value(d.take(k - start))
            } else {
                2int
            },
        ensures
            k == to,
            limit_one_value(whole) == (v == 1),
        decreases to - k,
    {
        if k == to {
            proof {
                assert(d.take(k - start) =~= d);
                crate::text::lemma_dec_value_nonneg(d);
            }
            break;
        }
        let c = s.get_char(k);
        let cv = c as u32;
        if cv < 48 || cv > 57 {
            proof {
                assert(d[k - start] == c);
                assert(!ascii_digit(d[k - start]));
                assert(!all_ascii_digits(d));
            }
            return false;
        }
        let dv = cv - 48;
        proof {
            lemma_dec_value_step(d, k - start);
        }
        v = if v == 0 && dv < 2 {
            dv
        } else if v == 0 {
            2
        } else {
            2
        };
        k = k + 1;
    }
    v == 1
}

} // verus!
