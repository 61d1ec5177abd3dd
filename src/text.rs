use vstd::prelude::*;
use vstd::std_specs::iter::IteratorSpec;
use vstd::string::{axiom_spec_iter, next_postcondition};

verus! {

broadcast use {axiom_spec_iter, next_postcondition};

/// The characters of `s`, in order.
pub fn chars_of(s: &str) -> (r: Vec<char>)
    ensures
        r@ == s@,
{
    let mut it = s.chars();
    let mut r: Vec<char> = Vec::new();
    loop
        invariant
            r@ + it.remaining() == s@,
            it.decrease() is Some,
        decreases it.decrease()->0,
    {
        let ghost before = it.remaining();
        match it.next() {
            Some(c) => {
                r.push(c);
                assert(r@ + it.remaining() =~= s@) by {
                    assert(before =~= seq![c] + it.remaining());
                }
            },
            None => {
                assert(r@ =~= s@);
                return r;
            },
        }
    }
}


/// Unicode `White_Space`, the set that `char::is_whitespace` accepts.
pub open spec fn is_space(c: char) -> bool {
    let u = c as u32;
    ||| 9 <= u <= 13
    ||| u == 32
    ||| u == 0x85
    ||| u == 0xA0
    ||| u == 0x1680
    ||| 0x2000 <= u <= 0x200A
    ||| u == 0x2028
    ||| u == 0x2029
    ||| u == 0x202F
    ||| u == 0x205F
    ||| u == 0x3000
}

pub fn is_space_char(c: char) -> (r: bool)
    ensures
        r == is_space(c),
{
    let u = c as u32;
    (9 <= u && u <= 13) || u == 32 || u == 0x85 || u == 0xA0 || u == 0x1680 || (0x2000 <= u && u
        <= 0x200A) || u == 0x2028 || u == 0x2029 || u == 0x202F || u == 0x205F || u == 0x3000
}

/// Index of the first `//` in `l` at or after `i`, or `l.len()` when there is none.
pub open spec fn comment_from(l: Seq<char>, i: int) -> int
    decreases l.len() - i,
{
    if i + 1 >= l.len() {
        l.len() as int
    } else if l[i] == '/' && l[i + 1] == '/' {
        i
    } else {
        comment_from(l, i + 1)
    }
}

/// A line without its comment: everything before the first `//`.
pub open spec fn code_of(l: Seq<char>) -> Seq<char> {
    l.take(comment_from(l, 0))
}

proof fn lemma_comment_from_bounds(l: Seq<char>, i: int)
    requires
        0 <= i,
    ensures
        i <= comment_from(l, i) <= l.len() || (i >= l.len() && comment_from(l, i) == l.len()),
    decreases l.len() - i,
{
    if i + 1 < l.len() && !(l[i] == '/' && l[i + 1] == '/') {
        lemma_comment_from_bounds(l, i + 1);
    }
}

/// Number of leading characters of `l` that precede its comment.
pub fn code_len(l: &Vec<char>) -> (r: usize)
    ensures
        r == comment_from(l@, 0),
        r <= l.len(),
{
    let mut i: usize = 0;
    while l.len() > 0 && i < l.len() - 1
        invariant
            i <= l.len(),
            comment_from(l@, 0) == comment_from(l@, i as int),
        decreases l.len() - i,
    {
        if l[i] == '/' && l[i + 1] == '/' {
            return i;
        }
        i = i + 1;
    }
    proof {
        lemma_comment_from_bounds(l@, i as int);
    }
    l.len()
}

/// Splitting on whitespace, one character at a time: the words completed so far and the
/// word in progress.
pub open spec fn scan_words(s: Seq<char>) -> (Seq<Seq<char>>, Seq<char>)
    decreases s.len(),
{
    if s.len() == 0 {
        (seq![], seq![])
    } else {
        let (done, cur) = scan_words(s.drop_last());
        if is_space(s.last()) {
            if cur.len() > 0 {
                (done.push(cur), seq![])
            } else {
                (done, cur)
            }
        } else {
            (done, cur.push(s.last()))
        }
    }
}

/// The maximal runs of non-whitespace characters of `s`, in order (`str::split_whitespace`).
pub open spec fn words(s: Seq<char>) -> Seq<Seq<char>> {
    let (done, cur) = scan_words(s);
    if cur.len() > 0 {
        done.push(cur)
    } else {
        done
    }
}

/// Start and end positions in `l` of the words of `l[..end]`.
pub fn word_spans(l: &Vec<char>, end: usize) -> (r: Vec<(usize, usize)>)
    requires
        end <= l.len(),
    ensures
        r.len() == words(l@.take(end as int)).len(),
        forall|k: int|
            #![trigger r[k]] 0 <= k < r.len() ==> {
                &&& r[k].0 < r[k].1 <= end
                &&& l@.subrange(r[k].0 as int, r[k].1 as int) == words(
                    l@.take(end as int),
                )[k]
            },
{
    let ghost s = l@.take(end as int);
    let mut spans: Vec<(usize, usize)> = Vec::new();
    let mut in_word = false;
    let mut start: usize = 0;
    let mut i: usize = 0;
    while i < end
        invariant
            i <= end <= l.len(),
            s == l@.take(end as int),
            spans.len() == scan_words(s.take(i as int)).0.len(),
            forall|k: int|
                #![trigger spans[k]] 0 <= k < spans.len() ==> {
                    &&& spans[k].0 < spans[k].1 <= i
                    &&& l@.subrange(spans[k].0 as int, spans[k].1 as int)
                        == scan_words(s.take(i as int)).0[k]
                },
            in_word ==> start < i && scan_words(s.take(i as int)).1 == l@.subrange(
                start as int,
                i as int,
            ),
            !in_word ==> scan_words(s.take(i as int)).1.len() == 0,
        decreases end - i,
    {
        let ghost prev = scan_words(s.take(i as int));
        assert(s.take(i + 1).drop_last() =~= s.take(i as int));
        assert(s.take(i + 1).last() == l@[i as int]);
        let ghost old_spans = spans@;
        let ghost old_start = start;
        if is_space_char(l[i]) {
            if in_word {
                spans.push((start, i));
                in_word = false;
            }
        } else {
            if !in_word {
                start = i;
                in_word = true;
                assert(l@.subrange(start as int, i + 1) =~= prev.1.push(l@[i as int]));
            } else {
                assert(l@.subrange(start as int, i + 1) =~= prev.1.push(l@[i as int]));
            }
        }
        proof {
            let next = scan_words(s.take(i + 1)).0;
            assert(next.len() == spans.len());
            assert forall|k: int| #![trigger spans[k]] 0 <= k < spans.len() implies {
                &&& spans[k].0 < spans[k].1 <= i + 1
                &&& l@.subrange(spans[k].0 as int, spans[k].1 as int) == next[k]
            } by {
                if k < old_spans.len() {
                    assert(spans[k] == old_spans[k]);
                    assert(l@.subrange(old_spans[k].0 as int, old_spans[k].1 as int) == prev.0[k]);
                    assert(next[k] == prev.0[k]);
                } else {
                    assert(spans[k] == (old_start, i));
                }
            }
        }
        i = i + 1;
    }
    assert(s.take(end as int) =~= s);
    let ghost old_spans = spans@;
    assert(l@.take(end as int) == s);
    if in_word {
        spans.push((start, end));
        assert forall|k: int| #![trigger spans[k]] 0 <= k < spans.len() implies {
            &&& spans[k].0 < spans[k].1 <= end
            &&& l@.subrange(spans[k].0 as int, spans[k].1 as int) == words(s)[k]
        } by {
            if k < old_spans.len() {
                assert(spans[k] == old_spans[k]);
                assert(l@.subrange(old_spans[k].0 as int, old_spans[k].1 as int)
                    == scan_words(s).0[k]);
            } else {
                assert(spans[k] == (start, end));
            }
        }
    } else {
        assert(words(s) == scan_words(s).0);
        assert forall|k: int| #![trigger spans[k]] 0 <= k < spans.len() implies {
            &&& spans[k].0 < spans[k].1 <= end
            &&& l@.subrange(spans[k].0 as int, spans[k].1 as int) == words(s)[k]
        } by {
            assert(l@.subrange(spans[k].0 as int, spans[k].1 as int) == scan_words(s).0[k]);
        }
    }
    spans
}

pub open spec fn is_digit(c: char) -> bool {
    48 <= c as u32 <= 57
}

/// The decimal value of a sequence of digits.
pub open spec fn digits_value(s: Seq<char>) -> int
    decreases s.len(),
{
    if s.len() == 0 {
        0
    } else {
        digits_value(s.drop_last()) * 10 + (s.last() as u32 - 48)
    }
}

pub open spec fn all_digits(s: Seq<char>) -> bool {
    &&& s.len() > 0
    &&& forall|i: int| 0 <= i < s.len() ==> is_digit(#[trigger] s[i])
}

/// What `str::parse` accepts for an unsigned integer type whose largest value is `max`:
/// an optional `+`, then one or more decimal digits.
pub open spec fn parse_unsigned(s: Seq<char>, max: int) -> Option<int> {
    let d = if s.len() > 0 && s[0] == '+' {
        s.drop_first()
    } else {
        s
    };
    if all_digits(d) && digits_value(d) <= max {
        Some(digits_value(d))
    } else {
        None
    }
}

/// What `str::parse` accepts for a signed integer type with range `[min, max]`:
/// an optional `+` or `-`, then one or more decimal digits.
pub open spec fn parse_signed(s: Seq<char>, min: int, max: int) -> Option<int> {
    if s.len() > 0 && s[0] == '-' {
        let d = s.drop_first();
        if all_digits(d) && -digits_value(d) >= min {
            Some(-digits_value(d))
        } else {
            None
        }
    } else {
        parse_unsigned(s, max)
    }
}

/// The value of `l[from..to]` as decimal digits, if every character is a digit and the
/// value is at most `cap`.
fn digits_upto(l: &Vec<char>, from: usize, to: usize, cap: u64) -> (r: Option<u64>)
    requires
        from <= to <= l.len(),
    ensures
        r is Some <==> all_digits(l@.subrange(from as int, to as int)) && digits_value(
            l@.subrange(from as int, to as int),
        ) <= cap,
        r matches Some(v) ==> v as int == digits_value(l@.subrange(from as int, to as int)),
{
    if from == to {
        return None;
    }
    let limit: u128 = cap as u128 + 1;
    let mut acc: u128 = 0;
    let mut i: usize = from;
    while i < to
        invariant
            from <= i <= to <= l.len(),
            limit == cap + 1,
            forall|k: int| from <= k < i ==> is_digit(#[trigger] l@[k]),
            digits_value(l@.subrange(from as int, i as int)) >= 0,
            acc == (if digits_value(l@.subrange(from as int, i as int)) < limit {
                digits_value(l@.subrange(from as int, i as int))
            } else {
                limit as int
            }),
        decreases to - i,
    {
        let c = l[i];
        let u = c as u32;
        if u < 48 || u > 57 {
            assert(!all_digits(l@.subrange(from as int, to as int))) by {
                assert(l@.subrange(from as int, to as int)[i - from] == c);
            }
            return None;
        }
        let ghost v = digits_value(l@.subrange(from as int, i as int));
        assert(l@.subrange(from as int, i + 1).drop_last() =~= l@.subrange(from as int, i as int));
        let d = (u - 48) as u128;
        let next = acc * 10 + d;
        acc = if next < limit {
            next
        } else {
            limit
        };
        proof {
            let w = digits_value(l@.subrange(from as int, i + 1));
            assert(w == v * 10 + d);
            if v >= limit {
                assert(v * 10 + d >= limit) by (nonlinear_arith)
                    requires
                        v >= limit,
                        d >= 0,
                        limit >= 1,
                ;
            }
            assert(w >= 0) by (nonlinear_arith)
                requires
                    w == v * 10 + d,
                    v >= 0,
                    d >= 0,
            ;
        }
        i = i + 1;
    }
    assert(all_digits(l@.subrange(from as int, to as int)));
    if acc < limit {
        Some(acc as u64)
    } else {
        None
    }
}

/// `l[from..to]` read as an unsigned decimal integer no larger than `max`.
pub fn parse_unsigned_at(l: &Vec<char>, from: usize, to: usize, max: u64) -> (r: Option<u64>)
    requires
        from <= to <= l.len(),
    ensures
        r matches Some(v) ==> parse_unsigned(l@.subrange(from as int, to as int), max as int)
            == Some(v as int),
        r is None ==> parse_unsigned(l@.subrange(from as int, to as int), max as int) is None,
        r matches Some(v) ==> v <= max,
{
    let ghost s = l@.subrange(from as int, to as int);
    if from < to && l[from] == '+' {
        assert(s.drop_first() =~= l@.subrange(from + 1, to as int));
        digits_upto(l, from + 1, to, max)
    } else {
        digits_upto(l, from, to, max)
    }
}

/// `l[from..to]` read as a signed decimal integer in `[-(neg_max), pos_max]`; the magnitude
/// is returned with its sign.
pub fn parse_signed_at(l: &Vec<char>, from: usize, to: usize, neg_max: u64, pos_max: u64) -> (r:
    Option<(bool, u64)>)
    requires
        from <= to <= l.len(),
    ensures
        r matches Some((neg, m)) ==> parse_signed(
            l@.subrange(from as int, to as int),
            -(neg_max as int),
            pos_max as int,
        ) == Some(if neg { -(m as int) } else { m as int }),
        r is None ==> parse_signed(
            l@.subrange(from as int, to as int),
            -(neg_max as int),
            pos_max as int,
        ) is None,
        r matches Some((neg, m)) ==> if neg {
            m <= neg_max
        } else {
            m <= pos_max
        },
{
    let ghost s = l@.subrange(from as int, to as int);
    if from < to && l[from] == '-' {
        assert(s.drop_first() =~= l@.subrange(from + 1, to as int));
        match digits_upto(l, from + 1, to, neg_max) {
            Some(m) => Some((true, m)),
            None => None,
        }
    } else {
        match parse_unsigned_at(l, from, to, pos_max) {
            Some(m) => Some((false, m)),
            None => None,
        }
    }
}

} // verus!
