//! The grammar of dotted task ids: a text is cut at its dots, and each
//! segment is read as a positive number. Reading is done one character at
//! a time; the proofs tie that reader to the grammar and show how reading
//! and writing undo each other.

use vstd::prelude::*;
use crate::decimal::{decimal, digit_value};
use crate::task_id::{all_positive, format_spec, parse_spec};

verus! {

/// Every character is one of `'0'..='9'`.
pub open spec fn all_digits(x: Seq<char>) -> bool {
    forall|i: int| 0 <= i < x.len() ==> digit_value(#[trigger] x[i]) is Some
}

/// The number that a run of digits stands for, most significant digit
/// first. Leading zeros do not count.
pub open spec fn numeral_value(x: Seq<char>) -> nat
    decreases x.len(),
{
    if x.len() == 0 {
        0
    } else {
        numeral_value(x.drop_last()) * 10 + (match digit_value(x.last()) {
            Some(d) => d,
            None => 0,
        })
    }
}

/// Whether a segment is a component of an id: a run of at least one digit
/// that stands for a number from 1 to the largest that 32 bits hold.
pub open spec fn is_component(x: Seq<char>) -> bool {
    x.len() > 0 && all_digits(x) && 1 <= numeral_value(x) <= u32::MAX
}

/// The segments of a text: what stands before, between and behind its
/// dots. A text without a dot is its own single segment.
pub open spec fn segments(s: Seq<char>) -> Seq<Seq<char>>
    decreases s.len(),
{
    if s.len() == 0 {
        seq![Seq::<char>::empty()]
    } else if s.last() == '.' {
        segments(s.drop_last()).push(Seq::<char>::empty())
    } else {
        segments(s.drop_last()).drop_last().push(segments(s.drop_last()).last().push(s.last()))
    }
}

/// The numbers that the segments stand for, in order.
pub open spec fn values(c: Seq<Seq<char>>) -> Seq<u32> {
    Seq::new(c.len(), |j: int| numeral_value(c[j]) as u32)
}

/// Whether a segment, if it is not empty, starts with a digit other than
/// zero.
pub open spec fn no_leading_zero(x: Seq<char>) -> bool {
    x.len() > 0 ==> x[0] != '0'
}

/// Whether no segment of the text starts with a zero.
pub open spec fn canonical(s: Seq<char>) -> bool {
    forall|j: int| 0 <= j < segments(s).len() ==> no_leading_zero(#[trigger] segments(s)[j])
}

/// Where a reader stands after some prefix of a text.
pub enum Scan {
    /// Nothing was read yet.
    Start,
    /// The components read so far, the last of them closed by a dot.
    AfterDot(Seq<u32>),
    /// The closed components, and the value of the digits read since.
    InNumber(Seq<u32>, u32),
    /// The prefix cannot begin any id.
    Fail,
}

/// The reader's move on one more character. A component starts with a
/// digit, goes on with digits while its value fits, and ends at a dot or
/// at the end of the text, where its value must not be zero.
pub open spec fn step(st: Scan, c: char) -> Scan {
    match st {
        Scan::Start => match digit_value(c) {
            Some(d) => Scan::InNumber(Seq::empty(), d as u32),
            None => Scan::Fail,
        },
        Scan::AfterDot(done) => match digit_value(c) {
            Some(d) => Scan::InNumber(done, d as u32),
            None => Scan::Fail,
        },
        Scan::InNumber(done, n) => match digit_value(c) {
            Some(d) => if n * 10 + d <= u32::MAX {
                Scan::InNumber(done, (n * 10 + d) as u32)
            } else {
                Scan::Fail
            },
            None => if c == '.' && n >= 1 {
                Scan::AfterDot(done.push(n))
            } else {
                Scan::Fail
            },
        },
        Scan::Fail => Scan::Fail,
    }
}

/// Where the reader stands after all of `s`.
pub open spec fn scan(s: Seq<char>) -> Scan
    decreases s.len(),
{
    if s.len() == 0 {
        Scan::Start
    } else {
        step(scan(s.drop_last()), s.last())
    }
}

/// The id read, if the text may end where the reader stands.
pub open spec fn accepted(st: Scan) -> Option<Seq<u32>> {
    match st {
        Scan::Start => Some(Seq::empty()),
        Scan::InNumber(done, n) => if n >= 1 {
            Some(done.push(n))
        } else {
            None
        },
        Scan::AfterDot(_) => None,
        Scan::Fail => None,
    }
}

/// Once the reader has failed on a prefix, it fails on the whole text.
pub proof fn lemma_fail_stays(s: Seq<char>, i: int)
    requires
        0 <= i <= s.len(),
        scan(s.take(i)) is Fail,
    ensures
        scan(s) is Fail,
    decreases s.len() - i,
{
    if i == s.len() {
        assert(s.take(i) =~= s);
    } else {
        assert(s.take(i + 1).drop_last() =~= s.take(i));
        lemma_fail_stays(s, i + 1);
    }
}

/// All segments but the last, which may still grow, are components.
pub open spec fn closed_ok(c: Seq<Seq<char>>) -> bool {
    forall|j: int| 0 <= j < c.len() - 1 ==> is_component(#[trigger] c[j])
}

/// A segment that no further character can make a component: it holds a
/// character that is no digit, or its value is too large already.
pub open spec fn dead(x: Seq<char>) -> bool {
    !all_digits(x) || numeral_value(x) > u32::MAX
}

/// Some segment will never be a component: a closed one that is none, or
/// the last one if it is dead.
pub open spec fn doomed(c: Seq<Seq<char>>) -> bool {
    exists|j: int|
        0 <= j < c.len() && (if j < c.len() - 1 {
            !is_component(#[trigger] c[j])
        } else {
            dead(c[j])
        })
}

/// One more character keeps a dead segment dead.
pub proof fn lemma_dead_stays(x: Seq<char>, ch: char)
    requires
        dead(x),
    ensures
        dead(x.push(ch)),
{
    let y = x.push(ch);
    assert(y.drop_last() =~= x);
    if !all_digits(x) {
        let i = choose|i: int| 0 <= i < x.len() && !(digit_value(#[trigger] x[i]) is Some);
        assert(y[i] == x[i]);
    }
}

/// A run of digits stays one when a digit is appended, and only then.
pub proof fn lemma_all_digits_push(x: Seq<char>, ch: char)
    ensures
        all_digits(x.push(ch)) <==> all_digits(x) && digit_value(ch) is Some,
        x.push(ch).drop_last() == x,
{
    let y = x.push(ch);
    assert(y.drop_last() =~= x);
    if all_digits(y) {
        assert(y[x.len() as int] == ch);
        assert forall|i: int| 0 <= i < x.len() implies digit_value(#[trigger] x[i]) is Some by {
            assert(y[i] == x[i]);
        }
    }
    if all_digits(x) && digit_value(ch) is Some {
        assert forall|i: int| 0 <= i < y.len() implies digit_value(#[trigger] y[i]) is Some by {
            if i < x.len() {
                assert(y[i] == x[i]);
            }
        }
    }
}

/// What the reader holds describes the segments of what it has read: the
/// closed segments are components with the values held, and the last
/// segment is the run of digits whose value is held.
pub proof fn lemma_scan_describes(s: Seq<char>)
    ensures
        segments(s).len() >= 1,
        match scan(s) {
            Scan::Start => s.len() == 0,
            Scan::AfterDot(done) => {
                &&& s.len() > 0
                &&& segments(s).len() >= 2
                &&& segments(s).last().len() == 0
                &&& closed_ok(segments(s))
                &&& done == values(segments(s).drop_last())
            },
            Scan::InNumber(done, n) => {
                &&& s.len() > 0
                &&& segments(s).last().len() > 0
                &&& all_digits(segments(s).last())
                &&& numeral_value(segments(s).last()) == n
                &&& closed_ok(segments(s))
                &&& done == values(segments(s).drop_last())
            },
            Scan::Fail => s.len() > 0 && doomed(segments(s)),
        },
    decreases s.len(),
{
    if s.len() > 0 {
        let p = s.drop_last();
        let ch = s.last();
        lemma_scan_describes(p);
        let b = segments(p);
        let c = segments(s);
        let last = b.len() - 1;
        if ch == '.' {
            assert(c == b.push(Seq::<char>::empty()));
            assert(c.drop_last() =~= b);
            assert(b =~= b.drop_last().push(b.last()));
        } else {
            assert(c == b.drop_last().push(b.last().push(ch)));
            assert(c.drop_last() =~= b.drop_last());
            lemma_all_digits_push(b.last(), ch);
        }
        // What is to be shown of the reader's new state.
        let described = match scan(s) {
            Scan::Start => false,
            Scan::AfterDot(done) => {
                &&& c.len() >= 2
                &&& c.last().len() == 0
                &&& closed_ok(c)
                &&& done == values(c.drop_last())
            },
            Scan::InNumber(done, n) => {
                &&& c.last().len() > 0
                &&& all_digits(c.last())
                &&& numeral_value(c.last()) == n
                &&& closed_ok(c)
                &&& done == values(c.drop_last())
            },
            Scan::Fail => doomed(c),
        };
        match scan(p) {
            Scan::Start => {
                assert(b =~= seq![Seq::<char>::empty()]);
                if ch == '.' {
                    assert(c[0] == b[0]);
                    assert(!is_component(c[0]));
                    assert(doomed(c));
                } else if digit_value(ch) is None {
                    assert(dead(c[last]));
                    assert(doomed(c));
                } else {
                    assert(values(c.drop_last()) =~= Seq::<u32>::empty());
                    assert(numeral_value(b.last()) == 0);
                    assert(closed_ok(c));
                }
                assert(described);
            },
            Scan::AfterDot(done) => {
                if ch == '.' {
                    assert(c[last] == b[last]);
                    assert(!is_component(c[last]));
                    assert(doomed(c));
                } else if digit_value(ch) is None {
                    assert(dead(c[last]));
                    assert(doomed(c));
                } else {
                    assert(closed_ok(c)) by {
                        assert forall|j: int| 0 <= j < c.len() - 1 implies is_component(
                            #[trigger] c[j],
                        ) by {
                            assert(c[j] == b[j]);
                        }
                    }
                    assert(numeral_value(b.last()) == 0);
                }
                assert(described);
            },
            Scan::InNumber(done, n) => {
                if ch == '.' {
                    assert(c[last] == b[last]);
                    if n >= 1 {
                        assert(is_component(b[last]));
                        assert(closed_ok(c)) by {
                            assert forall|j: int| 0 <= j < c.len() - 1 implies is_component(
                                #[trigger] c[j],
                            ) by {
                                assert(c[j] == b[j]);
                                if j < last {
                                    assert(is_component(b[j]));
                                }
                            }
                        }
                        assert(values(c.drop_last()) =~= done.push(n));
                    } else {
                        assert(!is_component(c[last]));
                        assert(doomed(c));
                    }
                } else {
                    assert(closed_ok(c)) by {
                        assert forall|j: int| 0 <= j < c.len() - 1 implies is_component(
                            #[trigger] c[j],
                        ) by {
                            assert(c[j] == b[j]);
                        }
                    }
                    match digit_value(ch) {
                        Some(d) => {
                            assert(numeral_value(c.last()) == n * 10 + d);
                            if n * 10 + d > u32::MAX {
                                assert(dead(c[last]));
                                assert(doomed(c));
                            }
                        },
                        None => {
                            assert(dead(c[last]));
                            assert(doomed(c));
                        },
                    }
                }
                assert(described);
            },
            Scan::Fail => {
                let j = choose|j: int|
                    0 <= j < b.len() && (if j < b.len() - 1 {
                        !is_component(#[trigger] b[j])
                    } else {
                        dead(b[j])
                    });
                if ch == '.' {
                    assert(c[j] == b[j]);
                    assert(!is_component(c[j]));
                } else if j < last {
                    assert(c[j] == b[j]);
                    assert(!is_component(c[j]));
                } else {
                    lemma_dead_stays(b.last(), ch);
                    assert(dead(c[last]));
                }
                assert(doomed(c));
                assert(described);
            },
        }
    }
}

/// What the reader accepts is what the text denotes.
pub proof fn lemma_accepted_is_parse(s: Seq<char>)
    ensures
        accepted(scan(s)) == parse_spec(s),
{
    lemma_scan_describes(s);
    let c = segments(s);
    let last = c.len() - 1;
    match scan(s) {
        Scan::Start => {},
        Scan::AfterDot(done) => {
            assert(!is_component(c[last]));
        },
        Scan::InNumber(done, n) => {
            if n >= 1 {
                assert(c =~= c.drop_last().push(c.last()));
                assert(values(c) =~= done.push(n));
                assert forall|j: int| 0 <= j < c.len() implies is_component(#[trigger] c[j]) by {
                    if j < last {
                        assert(closed_ok(c));
                    }
                }
            } else {
                assert(!is_component(c[last]));
            }
        },
        Scan::Fail => {
            let j = choose|j: int|
                0 <= j < c.len() && (if j < c.len() - 1 {
                    !is_component(#[trigger] c[j])
                } else {
                    dead(c[j])
                });
            assert(!is_component(c[j]));
        },
    }
}

/// Reading the decimal notation of a positive number that fits, where a
/// component may start, leaves the reader inside that number.
pub proof fn lemma_scan_decimal(prefix: Seq<char>, done: Seq<u32>, x: nat)
    requires
        1 <= x <= u32::MAX,
        (scan(prefix) == Scan::Start && done == Seq::<u32>::empty()) || scan(prefix)
            == Scan::AfterDot(done),
    ensures
        scan(prefix + decimal(x)) == Scan::InNumber(done, x as u32),
    decreases x,
{
    if x < 10 {
        let s = prefix + decimal(x);
        assert(s.drop_last() =~= prefix);
    } else {
        let hi = x / 10;
        lemma_scan_decimal(prefix, done, hi);
        let s = prefix + decimal(x);
        assert(s.drop_last() =~= prefix + decimal(hi));
    }
}

/// Reading the notation of an id with positive components leaves the reader
/// holding exactly that id.
pub proof fn lemma_scan_complete(v: Seq<u32>)
    requires
        all_positive(v),
    ensures
        v.len() == 0 ==> scan(format_spec(v)) == Scan::Start,
        v.len() > 0 ==> scan(format_spec(v)) == Scan::InNumber(v.drop_last(), v.last()),
    decreases v.len(),
{
    if v.len() == 1 {
        let e = Seq::<char>::empty();
        lemma_scan_decimal(e, Seq::<u32>::empty(), v[0] as nat);
        assert(v.drop_last() =~= Seq::<u32>::empty());
    } else if v.len() > 1 {
        let p = v.drop_last();
        lemma_scan_complete(p);
        let dotted = format_spec(p).push('.');
        assert(dotted.drop_last() =~= format_spec(p));
        assert(p.drop_last().push(p.last()) =~= p);
        assert(p.last() >= 1);
        lemma_scan_decimal(dotted, p, v.last() as nat);
    }
}

/// Writing an id with positive components and reading the text back gives
/// the same id.
pub proof fn lemma_parse_of_format(v: Seq<u32>)
    requires
        all_positive(v),
    ensures
        parse_spec(format_spec(v)) == Some(v),
{
    lemma_scan_complete(v);
    lemma_accepted_is_parse(format_spec(v));
    if v.len() > 0 {
        assert(v.drop_last().push(v.last()) =~= v);
        assert(v.last() >= 1);
    }
}

/// A run of digits that does not start with a zero is the decimal notation
/// of the number it stands for, and that number is not zero.
pub proof fn lemma_decimal_of_value(x: Seq<char>)
    requires
        x.len() > 0,
        all_digits(x),
        x[0] != '0',
    ensures
        decimal(numeral_value(x)) == x,
        numeral_value(x) >= 1,
    decreases x.len(),
{
    let d = digit_value(x.last()).unwrap();
    assert(digit_value(x[x.len() - 1]) is Some);
    if x.len() == 1 {
        assert(x.drop_last() =~= Seq::<char>::empty());
        assert(numeral_value(x.drop_last()) == 0);
        assert(decimal(d) =~= x);
    } else {
        let p = x.drop_last();
        assert(all_digits(p)) by {
            assert forall|i: int| 0 <= i < p.len() implies digit_value(#[trigger] p[i]) is Some by {
                assert(p[i] == x[i]);
            }
        }
        assert(p[0] == x[0]);
        lemma_decimal_of_value(p);
        let n = numeral_value(p);
        let m = numeral_value(x);
        assert(m == n * 10 + d);
        assert(m >= 10 && m / 10 == n && m % 10 == d) by (nonlinear_arith)
            requires
                m == n * 10 + d,
                n >= 1,
                d < 10,
        ;
        assert(decimal(m) =~= x);
    }
}

/// A text whose closed segments are components without a leading zero, and
/// whose last segment is a run of digits without one, is the notation of
/// the closed components, a dot, and the last segment.
pub proof fn lemma_rejoin(s: Seq<char>)
    requires
        closed_ok(segments(s)),
        canonical(s),
        all_digits(segments(s).last()),
    ensures
        segments(s).len() >= 1,
        s == (if segments(s).len() == 1 {
            segments(s).last()
        } else {
            format_spec(values(segments(s).drop_last())).push('.') + segments(s).last()
        }),
    decreases s.len(),
{
    lemma_scan_describes(s);
    if s.len() == 0 {
        assert(s =~= segments(s).last());
    } else {
        let p = s.drop_last();
        let ch = s.last();
        lemma_scan_describes(p);
        let b = segments(p);
        let c = segments(s);
        let last = b.len() - 1;
        assert(s =~= p.push(ch));
        if ch == '.' {
            assert(c == b.push(Seq::<char>::empty()));
            assert(c.drop_last() =~= b);
            assert forall|j: int| 0 <= j < b.len() implies is_component(#[trigger] b[j])
                && no_leading_zero(b[j]) by {
                assert(c[j] == b[j]);
                assert(is_component(c[j]));
                assert(no_leading_zero(c[j]));
            }
            assert(closed_ok(b));
            assert(canonical(p));
            lemma_rejoin(p);
            lemma_decimal_of_value(b.last());
            let v = values(b);
            assert(v.drop_last() =~= values(b.drop_last()));
            assert(v.last() == numeral_value(b.last()));
            assert(format_spec(v) == p);
            assert(s =~= format_spec(v).push('.') + c.last());
        } else {
            assert(c == b.drop_last().push(b.last().push(ch)));
            assert(c.drop_last() =~= b.drop_last());
            lemma_all_digits_push(b.last(), ch);
            assert(c.last() == b.last().push(ch));
            assert forall|j: int| 0 <= j < b.len() implies no_leading_zero(#[trigger] b[j]) by {
                assert(no_leading_zero(c[j]));
                if j < last {
                    assert(c[j] == b[j]);
                } else if b[j].len() > 0 {
                    assert(c[j][0] == b[j][0]);
                }
            }
            assert(closed_ok(b)) by {
                assert forall|j: int| 0 <= j < b.len() - 1 implies is_component(#[trigger] b[j]) by {
                    assert(c[j] == b[j]);
                }
            }
            lemma_rejoin(p);
            if b.len() == 1 {
                assert(s =~= c.last());
            } else {
                assert(s =~= format_spec(values(c.drop_last())).push('.') + c.last());
            }
        }
    }
}

/// Reading a text that denotes an id and in which no segment starts with a
/// zero, and writing that id, gives the same text.
pub proof fn lemma_format_of_parse(s: Seq<char>)
    requires
        parse_spec(s) is Some,
        canonical(s),
    ensures
        all_positive(parse_spec(s).unwrap()),
        format_spec(parse_spec(s).unwrap()) == s,
{
    if s.len() > 0 {
        let c = segments(s);
        lemma_scan_describes(s);
        let last = c.len() - 1;
        assert(is_component(c[last]));
        assert(closed_ok(c));
        lemma_rejoin(s);
        assert(no_leading_zero(c[last]));
        lemma_decimal_of_value(c.last());
        let v = values(c);
        assert(v.drop_last() =~= values(c.drop_last()));
        assert(all_positive(v)) by {
            assert forall|j: int| 0 <= j < v.len() implies v[j] >= 1 by {
                assert(is_component(c[j]));
            }
        }
    }
}

/// A text that denotes an id denotes one with positive components, and
/// its segments are the components in order.
pub proof fn lemma_parse_is_positive(s: Seq<char>)
    requires
        parse_spec(s) is Some,
    ensures
        all_positive(parse_spec(s).unwrap()),
        s.len() > 0 ==> parse_spec(s).unwrap() == values(segments(s)),
{
    if s.len() > 0 {
        let c = segments(s);
        let v = values(c);
        assert forall|j: int| 0 <= j < v.len() implies v[j] >= 1 by {
            assert(is_component(c[j]));
        }
    }
}

/// Writing the id that a text denotes and reading it again gives the same
/// id, whether or not the text had zeros in front of its numbers.
pub proof fn lemma_parse_again(s: Seq<char>)
    requires
        parse_spec(s) is Some,
    ensures
        parse_spec(format_spec(parse_spec(s).unwrap())) == parse_spec(s),
{
    lemma_parse_is_positive(s);
    lemma_parse_of_format(parse_spec(s).unwrap());
}

/// The empty text denotes the root, and the notation of the root is the
/// empty text.
pub proof fn lemma_root_round_trip()
    ensures
        parse_spec(Seq::<char>::empty()) == Some(Seq::<u32>::empty()),
        format_spec(Seq::<u32>::empty()) == Seq::<char>::empty(),
{
}

/// Two ids with positive components and the same notation are the same id.
pub proof fn lemma_format_injective(v: Seq<u32>, w: Seq<u32>)
    requires
        all_positive(v),
        all_positive(w),
        format_spec(v) == format_spec(w),
    ensures
        v == w,
{
    lemma_parse_of_format(v);
    lemma_parse_of_format(w);
}

} // verus!
