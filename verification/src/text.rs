//! Shared scanning vocabulary: character classes, decimal numbers, and
//! splitting a character sequence on separators.
//!
//! The spec functions here are the language in which the parsers of the
//! puzzle modules state their contracts; the exec functions are the verified
//! scanners the parsers are built from.
use vstd::prelude::*;

verus! {

/// A decimal digit.
pub open spec fn is_digit_char(c: char) -> bool {
    '0' <= c && c <= '9'
}

/// Numeric value of a decimal digit.
pub open spec fn digit_of(c: char) -> int {
    c as int - '0' as int
}

/// Every character of `s` is a decimal digit.
pub open spec fn all_digits(s: Seq<char>) -> bool {
    forall|i: int| 0 <= i < s.len() ==> is_digit_char(#[trigger] s[i])
}

/// Value of a sequence of decimal digits, most significant first.
pub open spec fn digits_val(s: Seq<char>) -> int
    decreases s.len(),
{
    if s.len() == 0 {
        0
    } else {
        digits_val(s.drop_last()) * 10 + digit_of(s.last())
    }
}

/// An optional minus sign followed by at least one digit.
pub open spec fn is_int_literal(s: Seq<char>) -> bool {
    if s.len() > 0 && s[0] == '-' {
        s.len() >= 2 && all_digits(s.skip(1))
    } else {
        s.len() >= 1 && all_digits(s)
    }
}

/// Value of a decimal integer literal with an optional leading minus sign.
pub open spec fn int_val(s: Seq<char>) -> int {
    if s.len() > 0 && s[0] == '-' {
        -digits_val(s.skip(1))
    } else {
        digits_val(s)
    }
}

/// Index of the first character satisfying `pred`, or `s.len()` if none does.
pub open spec fn find_if(s: Seq<char>, pred: spec_fn(char) -> bool) -> nat
    decreases s.len(),
{
    if s.len() == 0 {
        0
    } else if pred(s[0]) {
        0
    } else {
        1 + find_if(s.drop_first(), pred)
    }
}

/// The predicate holding exactly on the character `c`.
pub open spec fn eq_char(c: char) -> spec_fn(char) -> bool {
    |x: char| x == c
}

/// The predicate holding on blank characters.
pub open spec fn space_pred() -> spec_fn(char) -> bool {
    |x: char| is_space_char(x)
}

/// Index of the first occurrence of `c`, or `s.len()` if there is none.
pub open spec fn find_char(s: Seq<char>, c: char) -> nat {
    find_if(s, eq_char(c))
}

/// What `find_if` returns: the first index whose character satisfies `pred`.
pub proof fn lemma_find_if(s: Seq<char>, pred: spec_fn(char) -> bool)
    ensures
        find_if(s, pred) <= s.len(),
        forall|i: int| 0 <= i < find_if(s, pred) ==> !pred(#[trigger] s[i]),
        find_if(s, pred) < s.len() ==> pred(s[find_if(s, pred) as int]),
    decreases s.len(),
{
    if s.len() > 0 && !pred(s[0]) {
        lemma_find_if(s.drop_first(), pred);
        assert forall|i: int| 0 <= i < find_if(s, pred) implies !pred(#[trigger] s[i]) by {
            if i > 0 {
                assert(s[i] == s.drop_first()[i - 1]);
            }
        }
        if find_if(s, pred) < s.len() {
            assert(s[find_if(s, pred) as int] == s.drop_first()[find_if(s.drop_first(), pred) as int]);
        }
    }
}

/// The pieces of `s` between the characters satisfying `pred`: one piece more
/// than there are separators, empty pieces kept.
pub open spec fn split_if(s: Seq<char>, pred: spec_fn(char) -> bool) -> Seq<Seq<char>>
    decreases s.len(),
    via split_if_decreases
{
    let k = find_if(s, pred);
    if k == s.len() {
        seq![s]
    } else {
        seq![s.take(k as int)] + split_if(s.skip(k as int + 1), pred)
    }
}

#[via_fn]
proof fn split_if_decreases(s: Seq<char>, pred: spec_fn(char) -> bool) {
    lemma_find_if(s, pred);
}

/// The pieces of `s` between occurrences of the separator `c`.
pub open spec fn split_char(s: Seq<char>, c: char) -> Seq<Seq<char>> {
    split_if(s, eq_char(c))
}

/// The lines of `s`: pieces between newlines, without a trailing empty piece
/// when `s` ends in a newline.  Carriage returns are kept as ordinary
/// characters.
pub open spec fn lines_of(s: Seq<char>) -> Seq<Seq<char>> {
    let p = split_char(s, '\n');
    if p.len() > 0 && p.last().len() == 0 {
        p.drop_last()
    } else {
        p
    }
}

/// A blank character: the separators `split_words` breaks on.
pub open spec fn is_space_char(c: char) -> bool {
    c == ' ' || c == '\t' || c == '\r' || c == '\n'
}

/// The predicate holding on non-empty pieces.
pub open spec fn nonempty_pred() -> spec_fn(Seq<char>) -> bool {
    |p: Seq<char>| p.len() > 0
}

/// The non-empty pieces of `s` between runs of blank characters.
pub open spec fn words_of(s: Seq<char>) -> Seq<Seq<char>> {
    split_if(s, space_pred()).filter(nonempty_pred())
}

/// Splitting a sequence whose first part holds no separator prepends that
/// part to the first piece of the rest's split.
pub proof fn lemma_split_if_prepend(x: Seq<char>, y: Seq<char>, pred: spec_fn(char) -> bool)
    requires
        forall|i: int| 0 <= i < x.len() ==> !pred(#[trigger] x[i]),
    ensures
        split_if(x + y, pred).len() == split_if(y, pred).len(),
        split_if(x + y, pred)[0] == x + split_if(y, pred)[0],
        forall|i: int|
            1 <= i < split_if(y, pred).len() ==> split_if(x + y, pred)[i] == #[trigger] split_if(
                y,
                pred,
            )[i],
    decreases x.len(),
{
    if x.len() == 0 {
        assert(x + y =~= y);
        assert(x + split_if(y, pred)[0] =~= split_if(y, pred)[0]);
    } else {
        let s = x + y;
        assert(s[0] == x[0]);
        let rest = x.drop_first() + y;
        assert(s.drop_first() =~= rest);
        lemma_split_if_prepend(x.drop_first(), y, pred);
        let k = find_if(rest, pred);
        lemma_find_if(rest, pred);
        assert(find_if(s, pred) == 1 + k);
        if k == rest.len() {
            // rest is a single piece, hence so are y and s
            assert(split_if(rest, pred) == seq![rest]);
            assert(split_if(y, pred).len() == 1);
            assert(find_if(y, pred) == y.len()) by {
                lemma_find_if(y, pred);
                if find_if(y, pred) < y.len() {
                    assert(split_if(y, pred) == seq![y.take(find_if(y, pred) as int)] + split_if(
                        y.skip(find_if(y, pred) as int + 1),
                        pred,
                    ));
                    assert(split_if(y, pred).len() >= 2);
                }
            }
            assert(split_if(y, pred) == seq![y]);
            assert(1 + k == s.len());
            assert(split_if(s, pred) == seq![s]);
            assert(s =~= x + y);
        } else {
            let head = s.take(1 + k as int);
            let tail = s.skip(1 + k as int + 1);
            assert(split_if(s, pred) == seq![head] + split_if(tail, pred));
            assert(split_if(rest, pred) == seq![rest.take(k as int)] + split_if(
                rest.skip(k as int + 1),
                pred,
            ));
            assert(tail =~= rest.skip(k as int + 1)) by {
                assert(tail.len() == rest.skip(k as int + 1).len());
                assert forall|i: int| 0 <= i < tail.len() implies tail[i] == rest.skip(
                    k as int + 1,
                )[i] by {
                    assert(tail[i] == s[1 + k + 1 + i]);
                    assert(rest.skip(k as int + 1)[i] == rest[k + 1 + i]);
                    assert(rest[k + 1 + i] == s.drop_first()[k + 1 + i]);
                }
            }
            assert(split_if(rest, pred)[0] == rest.take(k as int));
            assert(rest.take(k as int) == x.drop_first() + split_if(y, pred)[0]);
            assert(head =~= x + split_if(y, pred)[0]) by {
                let split0 = split_if(y, pred)[0];
                assert(rest.take(k as int).len() == k);
                assert(head.len() == x.len() + split0.len());
                assert forall|i: int| 0 <= i < 1 + k implies head[i] == (x + split0)[i] by {
                    assert(head[i] == s[i]);
                    if i < x.len() {
                        assert(s[i] == x[i]);
                    } else {
                        assert(s[i] == rest[i - 1]);
                        assert(rest[i - 1] == rest.take(k as int)[i - 1]);
                        assert(rest.take(k as int)[i - 1] == (x.drop_first() + split0)[i - 1]);
                        assert((x.drop_first() + split0)[i - 1] == split0[i - x.len()]);
                    }
                }
            }
            assert forall|i: int|
                1 <= i < split_if(y, pred).len() implies split_if(s, pred)[i] == #[trigger] split_if(
                y,
                pred,
            )[i] by {
                assert(split_if(s, pred)[i] == split_if(tail, pred)[i - 1]);
                assert(split_if(rest, pred)[i] == split_if(rest.skip(k as int + 1), pred)[i - 1]);
            }
        }
    }
}

/// A digit sequence has a non-negative value.
pub proof fn lemma_digits_val_nonneg(s: Seq<char>)
    requires
        all_digits(s),
    ensures
        digits_val(s) >= 0,
    decreases s.len(),
{
    if s.len() > 0 {
        assert(all_digits(s.drop_last()));
        lemma_digits_val_nonneg(s.drop_last());
    }
}

/// The value of a prefix of a digit sequence is at most the whole value.
pub proof fn lemma_digits_val_take_le(s: Seq<char>, i: int)
    requires
        all_digits(s),
        0 <= i <= s.len(),
    ensures
        digits_val(s.take(i)) <= digits_val(s),
    decreases s.len() - i,
{
    if i == s.len() {
        assert(s.take(i) =~= s);
    } else {
        lemma_digits_val_take_le(s, i + 1);
        assert(s.take(i + 1).drop_last() =~= s.take(i));
        assert(all_digits(s.take(i)));
        lemma_digits_val_nonneg(s.take(i));
        assert(digits_val(s.take(i + 1)) == digits_val(s.take(i)) * 10 + digit_of(s.take(i + 1).last()));
    }
}

/// The characters of `s`, as a vector.
pub fn chars_of(s: &str) -> (r: Vec<char>)
    ensures
        r@ == s@,
{
    let n = s.unicode_len();
    let mut r: Vec<char> = Vec::new();
    let mut i: usize = 0;
    while i < n
        invariant
            i <= n,
            n == s@.len(),
            r@ == s@.take(i as int),
        decreases n - i,
    {
        let c = s.get_char(i);
        r.push(c);
        proof {
            assert(r@ =~= s@.take(i as int + 1));
        }
        i = i + 1;
    }
    proof {
        assert(s@.take(n as int) =~= s@);
    }
    r
}

/// Value of `v` as an unsigned decimal number.
pub fn parse_u64(v: &Vec<char>) -> (r: u64)
    requires
        v@.len() >= 1,
        all_digits(v@),
        digits_val(v@) <= u64::MAX,
    ensures
        r == digits_val(v@),
{
    let mut r: u64 = 0;
    let mut i: usize = 0;
    while i < v.len()
        invariant
            i <= v@.len(),
            all_digits(v@),
            digits_val(v@) <= u64::MAX,
            r == digits_val(v@.take(i as int)),
        decreases v@.len() - i,
    {
        let c = v[i];
        proof {
            assert(is_digit_char(v@[i as int]));
            assert(v@.take(i as int + 1).drop_last() =~= v@.take(i as int));
            assert(digits_val(v@.take(i as int + 1)) == digits_val(v@.take(i as int)) * 10
                + digit_of(v@[i as int]));
            lemma_digits_val_take_le(v@, i as int + 1);
            lemma_digits_val_nonneg(v@.take(i as int));
        }
        let d = (c as u32 - '0' as u32) as u64;
        r = r * 10 + d;
        i = i + 1;
    }
    proof {
        assert(v@.take(v@.len() as int) =~= v@);
    }
    r
}

/// Value of `v` as a decimal integer with an optional leading minus sign.
pub fn parse_i64(v: &Vec<char>) -> (r: i64)
    requires
        is_int_literal(v@),
        -i64::MAX <= int_val(v@) <= i64::MAX,
    ensures
        r == int_val(v@),
{
    if v[0] == '-' {
        let mut mag: Vec<char> = Vec::new();
        let mut i: usize = 1;
        while i < v.len()
            invariant
                1 <= i <= v@.len(),
                mag@ == v@.skip(1).take(i - 1),
            decreases v@.len() - i,
        {
            let c = v[i];
            mag.push(c);
            proof {
                assert(mag@ =~= v@.skip(1).take(i as int));
            }
            i = i + 1;
        }
        proof {
            assert(v@.skip(1).take(v@.len() - 1) =~= v@.skip(1));
        }
        let m = parse_u64(&mag);
        proof {
            lemma_digits_val_nonneg(v@.skip(1));
        }
        let r = -(m as i64);
        r
    } else {
        let m = parse_u64(v);
        m as i64
    }
}

/// The views of a sequence of character vectors.
pub open spec fn views_of(s: Seq<Vec<char>>) -> Seq<Seq<char>> {
    s.map_values(|x: Vec<char>| x@)
}

/// One loop step of splitting: a separator closes the current piece.
proof fn lemma_split_step(cur: Seq<char>, c: char, rest: Seq<char>, pred: spec_fn(char) -> bool)
    requires
        pred(c),
        forall|j: int| 0 <= j < cur.len() ==> !pred(#[trigger] cur[j]),
    ensures
        split_if(cur + (seq![c] + rest), pred) =~= seq![cur] + split_if(rest, pred),
{
    let y = seq![c] + rest;
    assert(find_if(y, pred) == 0);
    assert(split_if(y, pred) == seq![y.take(0)] + split_if(y.skip(1), pred));
    assert(y.skip(1) =~= rest);
    assert(y.take(0) =~= Seq::<char>::empty());
    lemma_split_if_prepend(cur, y, pred);
    assert(cur + split_if(y, pred)[0] =~= cur);
    assert forall|k: int| 1 <= k < split_if(y, pred).len() implies split_if(cur + y, pred)[k]
        == split_if(rest, pred)[k - 1] by {
        assert(split_if(cur + y, pred)[k] == split_if(y, pred)[k]);
        assert(split_if(y, pred)[k] == split_if(rest, pred)[k - 1]);
    }
}

/// A piece with no separator splits into itself alone.
proof fn lemma_split_whole(cur: Seq<char>, pred: spec_fn(char) -> bool)
    requires
        forall|j: int| 0 <= j < cur.len() ==> !pred(#[trigger] cur[j]),
    ensures
        split_if(cur, pred) == seq![cur],
{
    lemma_find_if(cur, pred);
    if find_if(cur, pred) < cur.len() {
        assert(pred(cur[find_if(cur, pred) as int]));
    }
}

/// `v` split on the separator `sep`, empty pieces kept.
pub fn split_on_char(v: &Vec<char>, sep: char) -> (r: Vec<Vec<char>>)
    ensures
        views_of(r@) == split_char(v@, sep),
{
    let ghost pred = eq_char(sep);
    let mut r: Vec<Vec<char>> = Vec::new();
    let mut cur: Vec<char> = Vec::new();
    let mut i: usize = 0;
    proof {
        assert(cur@ + v@.skip(0) =~= v@);
        assert(views_of(r@) + split_if(v@, pred) =~= split_if(v@, pred));
    }
    while i < v.len()
        invariant
            i <= v@.len(),
            pred == eq_char(sep),
            forall|j: int| 0 <= j < cur@.len() ==> !pred(#[trigger] cur@[j]),
            split_if(v@, pred) == views_of(r@) + split_if(cur@ + v@.skip(i as int), pred),
        decreases v@.len() - i,
    {
        let ghost pre_r = views_of(r@);
        let ghost pre_cur = cur@;
        let c = v[i];
        if c == sep {
            r.push(cur);
            cur = Vec::new();
            proof {
                let rest = v@.skip(i as int + 1);
                assert(pre_cur + v@.skip(i as int) =~= pre_cur + (seq![c] + rest));
                assert(pred(c));
                lemma_split_step(pre_cur, c, rest, pred);
                assert(views_of(r@) =~= pre_r.push(pre_cur));
                assert(cur@ + rest =~= rest);
                assert(views_of(r@) + split_if(rest, pred) =~= pre_r + (seq![pre_cur] + split_if(
                    rest,
                    pred,
                )));
            }
        } else {
            cur.push(c);
            proof {
                assert(cur@ + v@.skip(i as int + 1) =~= pre_cur + v@.skip(i as int));
            }
        }
        i = i + 1;
    }
    let ghost pre_r = views_of(r@);
    proof {
        assert(cur@ + v@.skip(v@.len() as int) =~= cur@);
        lemma_split_whole(cur@, pred);
    }
    r.push(cur);
    proof {
        assert(views_of(r@) =~= pre_r + seq![cur@]);
        assert(split_char(v@, sep) =~= views_of(r@));
    }
    r
}

/// The lines of `v`, as `lines_of` describes them.
pub fn split_lines(v: &Vec<char>) -> (r: Vec<Vec<char>>)
    ensures
        views_of(r@) == lines_of(v@),
{
    let mut pieces = split_on_char(v, '\n');
    proof {
        assert(views_of(pieces@).len() == pieces@.len());
    }
    if pieces.len() > 0 && pieces[pieces.len() - 1].len() == 0 {
        let ghost pre = views_of(pieces@);
        proof {
            assert(pre.last() == pieces@.last()@);
        }
        pieces.pop();
        proof {
            assert(views_of(pieces@) =~= pre.drop_last());
        }
    }
    pieces
}

/// The words of `v`: maximal runs of non-blank characters.
pub fn split_words(v: &Vec<char>) -> (r: Vec<Vec<char>>)
    ensures
        views_of(r@) == words_of(v@),
{
    let ghost sp = space_pred();
    let ghost ne = nonempty_pred();
    let mut r: Vec<Vec<char>> = Vec::new();
    let mut cur: Vec<char> = Vec::new();
    let mut i: usize = 0;
    proof {
        assert(cur@ + v@.skip(0) =~= v@);
        assert(views_of(r@) + split_if(v@, sp).filter(ne) =~= split_if(v@, sp).filter(ne));
    }
    while i < v.len()
        invariant
            i <= v@.len(),
            sp == space_pred(),
            ne == nonempty_pred(),
            forall|j: int| 0 <= j < cur@.len() ==> !sp(#[trigger] cur@[j]),
            split_if(v@, sp).filter(ne) == views_of(r@) + split_if(
                cur@ + v@.skip(i as int),
                sp,
            ).filter(ne),
        decreases v@.len() - i,
    {
        let ghost pre_r = views_of(r@);
        let ghost pre_cur = cur@;
        let c = v[i];
        if c == ' ' || c == '\t' || c == '\r' || c == '\n' {
            proof {
                let rest = v@.skip(i as int + 1);
                assert(pre_cur + v@.skip(i as int) =~= pre_cur + (seq![c] + rest));
                assert(sp(c));
                lemma_split_step(pre_cur, c, rest, sp);
                broadcast use vstd::seq_lib::group_seq_properties;

                assert((seq![pre_cur] + split_if(rest, sp)).filter(ne) =~= seq![pre_cur].filter(ne)
                    + split_if(rest, sp).filter(ne)) by {
                    Seq::<Seq<char>>::filter_distributes_over_add(
                        seq![pre_cur],
                        split_if(rest, sp),
                        ne,
                    );
                }
                reveal_with_fuel(Seq::<Seq<char>>::filter, 2);
                assert(seq![pre_cur].drop_last() =~= Seq::<Seq<char>>::empty());
                assert(Seq::<Seq<char>>::empty().filter(ne) =~= Seq::<Seq<char>>::empty());
                if pre_cur.len() > 0 {
                    assert(seq![pre_cur].filter(ne) =~= seq![pre_cur]);
                } else {
                    assert(!ne(pre_cur));
                    assert(seq![pre_cur].filter(ne) =~= Seq::<Seq<char>>::empty());
                }
            }
            if cur.len() > 0 {
                r.push(cur);
                cur = Vec::new();
                proof {
                    let rest = v@.skip(i as int + 1);
                    assert(views_of(r@) =~= pre_r.push(pre_cur));
                    assert(cur@ + rest =~= rest);
                    assert(views_of(r@) + split_if(rest, sp).filter(ne) =~= pre_r + (
                    seq![pre_cur] + split_if(rest, sp).filter(ne)));
                }
            } else {
                cur = Vec::new();
                proof {
                    let rest = v@.skip(i as int + 1);
                    assert(cur@ + rest =~= rest);
                }
            }
        } else {
            cur.push(c);
            proof {
                assert(cur@ + v@.skip(i as int + 1) =~= pre_cur + v@.skip(i as int));
            }
        }
        i = i + 1;
    }
    let ghost pre_r = views_of(r@);
    proof {
        assert(cur@ + v@.skip(v@.len() as int) =~= cur@);
        lemma_split_whole(cur@, sp);
        reveal_with_fuel(Seq::<Seq<char>>::filter, 2);
        assert(seq![cur@].drop_last() =~= Seq::<Seq<char>>::empty());
        assert(Seq::<Seq<char>>::empty().filter(ne) =~= Seq::<Seq<char>>::empty());
    }
    if cur.len() > 0 {
        proof {
            reveal_with_fuel(Seq::<Seq<char>>::filter, 2);
            assert(seq![cur@].filter(ne) =~= seq![cur@]);
        }
        r.push(cur);
        proof {
            assert(views_of(r@) =~= pre_r + seq![cur@]);
            assert(words_of(v@) =~= views_of(r@));
        }
        r
    } else {
        proof {
            reveal_with_fuel(Seq::<Seq<char>>::filter, 2);
            assert(!ne(cur@));
            assert(seq![cur@].filter(ne) =~= Seq::<Seq<char>>::empty());
            assert(pre_r + Seq::<Seq<char>>::empty() =~= pre_r);
            assert(words_of(v@) =~= views_of(r@));
        }
        r
    }
}

/// Index of the first occurrence of `c` in `v`, or `v.len()` if there is none.
pub fn find_char_in(v: &Vec<char>, c: char) -> (r: usize)
    ensures
        r == find_char(v@, c),
        r <= v@.len(),
{
    let ghost pred = eq_char(c);
    let mut i: usize = 0;
    while i < v.len()
        invariant
            i <= v@.len(),
            pred == eq_char(c),
            forall|j: int| 0 <= j < i ==> !pred(#[trigger] v@[j]),
        decreases v@.len() - i,
    {
        if v[i] == c {
            proof {
                lemma_find_if(v@, pred);
                assert(pred(v@[i as int]));
            }
            return i;
        }
        i = i + 1;
    }
    proof {
        lemma_find_if(v@, pred);
        if find_if(v@, pred) < v@.len() {
            assert(pred(v@[find_if(v@, pred) as int]));
        }
    }
    i
}


/// The predicate holding on everything but a newline.
pub open spec fn not_newline_pred() -> spec_fn(char) -> bool {
    |c: char| c != '\n'
}

/// The cells of a grid given as newline-separated rows: all characters in
/// row-major order with the newlines removed.
pub open spec fn grid_cells(s: Seq<char>) -> Seq<char> {
    s.filter(not_newline_pred())
}

/// `v` with every newline removed.
pub fn drop_newlines(v: &Vec<char>) -> (r: Vec<char>)
    ensures
        r@ == grid_cells(v@),
        r@.len() <= v@.len(),
{
    let ghost p = not_newline_pred();
    let mut r: Vec<char> = Vec::new();
    let mut i: usize = 0;
    proof {
        reveal(Seq::filter);
        assert(v@.take(0).filter(p) =~= Seq::<char>::empty());
    }
    while i < v.len()
        invariant
            i <= v@.len(),
            p == not_newline_pred(),
            r@ == v@.take(i as int).filter(p),
            r@.len() <= i,
        decreases v@.len() - i,
    {
        let c = v[i];
        proof {
            reveal(Seq::filter);
            assert(v@.take(i as int + 1).drop_last() =~= v@.take(i as int));
            assert(v@.take(i as int + 1).last() == c);
        }
        if c != '\n' {
            r.push(c);
        }
        i = i + 1;
    }
    proof {
        assert(v@.take(v@.len() as int) =~= v@);
        reveal(Seq::filter);
    }
    r
}


/// The predicate holding on characters that can start or continue a
/// number token: digits and the minus sign.
pub open spec fn non_number_pred() -> spec_fn(char) -> bool {
    |c: char| !(is_digit_char(c) || c == '-')
}

/// The predicate holding on pieces that read as integer literals.
pub open spec fn int_literal_pred() -> spec_fn(Seq<char>) -> bool {
    |p: Seq<char>| is_int_literal(p)
}

/// The digit value of a piece, as a function value.
pub open spec fn digits_val_fn() -> spec_fn(Seq<char>) -> int {
    |w: Seq<char>| digits_val(w)
}

/// The integer value of a piece, as a function value.
pub open spec fn int_val_fn() -> spec_fn(Seq<char>) -> int {
    |p: Seq<char>| int_val(p)
}

/// Widening a machine integer, as a function value.
pub open spec fn to_int_fn() -> spec_fn(i64) -> int {
    |x: i64| x as int
}

/// The numbers embedded in `s`: maximal runs of digits, taking a minus
/// sign directly before a run as its sign; runs that do not read as an
/// integer are dropped.
pub open spec fn numbers_of(s: Seq<char>) -> Seq<int> {
    split_if(s, non_number_pred()).filter(int_literal_pred()).map_values(int_val_fn())
}

/// The number tokens of `v`, in order.
pub fn extract_numbers(v: &Vec<char>) -> (r: Vec<i64>)
    requires
        forall|p: Seq<char>|
            split_if(v@, non_number_pred()).contains(p) && is_int_literal(p)
                ==> -0x7fff_ffff_ffff_ffff <= #[trigger] int_val(p) <= 0x7fff_ffff_ffff_ffff,
    ensures
        r@.map_values(to_int_fn()) == numbers_of(v@),
{
    let ghost sp = non_number_pred();
    let ghost ip = int_literal_pred();
    let mut pieces: Vec<Vec<char>> = Vec::new();
    let mut cur: Vec<char> = Vec::new();
    let mut i: usize = 0;
    proof {
        assert(cur@ + v@.skip(0) =~= v@);
        assert(views_of(pieces@) + split_if(v@, sp) =~= split_if(v@, sp));
    }
    while i < v.len()
        invariant
            i <= v@.len(),
            sp == non_number_pred(),
            forall|j: int| 0 <= j < cur@.len() ==> !sp(#[trigger] cur@[j]),
            split_if(v@, sp) == views_of(pieces@) + split_if(cur@ + v@.skip(i as int), sp),
        decreases v@.len() - i,
    {
        let ghost pre_r = views_of(pieces@);
        let ghost pre_cur = cur@;
        let c = v[i];
        if !(('0' <= c && c <= '9') || c == '-') {
            pieces.push(cur);
            cur = Vec::new();
            proof {
                let rest = v@.skip(i as int + 1);
                assert(pre_cur + v@.skip(i as int) =~= pre_cur + (seq![c] + rest));
                assert(sp(c));
                lemma_split_step(pre_cur, c, rest, sp);
                assert(views_of(pieces@) =~= pre_r.push(pre_cur));
                assert(cur@ + rest =~= rest);
                assert(views_of(pieces@) + split_if(rest, sp) =~= pre_r + (seq![pre_cur]
                    + split_if(rest, sp)));
            }
        } else {
            cur.push(c);
            proof {
                assert(cur@ + v@.skip(i as int + 1) =~= pre_cur + v@.skip(i as int));
            }
        }
        i = i + 1;
    }
    let ghost pre_r = views_of(pieces@);
    proof {
        assert(cur@ + v@.skip(v@.len() as int) =~= cur@);
        lemma_split_whole(cur@, sp);
    }
    pieces.push(cur);
    proof {
        assert(views_of(pieces@) =~= pre_r + seq![cur@]);
        assert(split_if(v@, sp) =~= views_of(pieces@));
    }
    // keep the pieces that read as integers, parsed
    let ghost all = split_if(v@, sp);
    let mut r: Vec<i64> = Vec::new();
    let mut j: usize = 0;
    proof {
        reveal(Seq::filter);
        assert(all.take(0).filter(ip) =~= Seq::<Seq<char>>::empty());
        assert(r@.map_values(to_int_fn()) =~= all.take(0).filter(ip).map_values(int_val_fn()));
    }
    while j < pieces.len()
        invariant
            j <= pieces@.len(),
            sp == non_number_pred(),
            ip == int_literal_pred(),
            all == split_if(v@, sp),
            views_of(pieces@) == all,
            forall|p: Seq<char>|
                all.contains(p) && is_int_literal(p) ==> -0x7fff_ffff_ffff_ffff <= #[trigger] int_val(
                    p,
                ) <= 0x7fff_ffff_ffff_ffff,
            r@.map_values(to_int_fn()) == all.take(j as int).filter(ip).map_values(
                int_val_fn(),
            ),
        decreases pieces@.len() - j,
    {
        let piece = &pieces[j];
        let ghost pv = piece@;
        proof {
            reveal(Seq::filter);
            assert(pv == all[j as int]);
            assert(all.take(j as int + 1).drop_last() =~= all.take(j as int));
            assert(all.take(j as int + 1).last() == pv);
        }
        // does the piece read as an integer?
        let is_lit: bool;
        if piece.len() == 0 {
            is_lit = false;
        } else if piece[0] == '-' {
            let mut all_d = piece.len() >= 2;
            let mut t: usize = 1;
            while t < piece.len()
                invariant
                    1 <= t <= pv.len(),
                    pv == piece@,
                    pv.len() >= 1,
                    all_d == (pv.len() >= 2 && (forall|q: int|
                        1 <= q < t ==> is_digit_char(#[trigger] pv[q]))),
                decreases pv.len() - t,
            {
                let ch = piece[t];
                if !('0' <= ch && ch <= '9') {
                    all_d = false;
                }
                t = t + 1;
            }
            proof {
                assert(pv.skip(1).len() == pv.len() - 1);
                if all_digits(pv.skip(1)) {
                    assert forall|q: int| 1 <= q < pv.len() implies is_digit_char(
                        #[trigger] pv[q],
                    ) by {
                        assert(pv.skip(1)[q - 1] == pv[q]);
                        assert(is_digit_char(pv.skip(1)[q - 1]));
                    }
                }
                if forall|q: int| 1 <= q < pv.len() ==> is_digit_char(#[trigger] pv[q]) {
                    assert forall|q: int| 0 <= q < pv.skip(1).len() implies is_digit_char(
                        #[trigger] pv.skip(1)[q],
                    ) by {
                        assert(pv.skip(1)[q] == pv[q + 1]);
                        assert(is_digit_char(pv[q + 1]));
                    }
                }
            }
            is_lit = all_d;
            proof {
                assert(is_lit == is_int_literal(pv));
            }
        } else {
            let mut all_d = true;
            let mut t: usize = 0;
            while t < piece.len()
                invariant
                    t <= pv.len(),
                    pv == piece@,
                    pv.len() >= 1,
                    pv[0] != '-',
                    all_d == (forall|q: int| 0 <= q < t ==> is_digit_char(#[trigger] pv[q])),
                decreases pv.len() - t,
            {
                let ch = piece[t];
                if !('0' <= ch && ch <= '9') {
                    all_d = false;
                }
                t = t + 1;
            }
            is_lit = all_d;
            proof {
                assert(is_lit == is_int_literal(pv));
            }
        }
        if is_lit {
            proof {
                assert(all.contains(pv)) by {
                    assert(all[j as int] == pv);
                }
                if pv[0] == '-' {
                    lemma_digits_val_nonneg(pv.skip(1));
                } else {
                    lemma_digits_val_nonneg(pv);
                }
            }
            let ghost pre = r@;
            let n = parse_i64(piece);
            r.push(n);
            proof {
                reveal(Seq::filter);
                assert(ip(pv));
                let fa = all.take(j as int).filter(ip);
                let fb = all.take(j as int + 1).filter(ip);
                assert(fb =~= fa.push(pv));
                let g = int_val_fn();
                let h = to_int_fn();
                assert(r@ == pre.push(n));
                assert(n as int == int_val(pv));
                assert(pre.map_values(h).len() == pre.len());
                assert(fa.map_values(g).len() == fa.len());
                assert(pre.len() == fa.len());
                assert(fb.len() == fa.len() + 1);
                assert forall|ii: int| 0 <= ii < r@.len() implies r@.map_values(h)[ii]
                    == fb.map_values(g)[ii] by {
                    assert(r@.map_values(h)[ii] == h(r@[ii]));
                    assert(fb.map_values(g)[ii] == g(fb[ii]));
                    if ii < pre.len() {
                        assert(r@[ii] == pre[ii]);
                        assert(fb[ii] == fa[ii]);
                        assert(pre.map_values(h)[ii] == fa.map_values(g)[ii]);
                    } else {
                        assert(r@[ii] == n);
                        assert(fb[ii] == pv);
                    }
                }
                assert(r@.map_values(to_int_fn()) =~= all.take(j as int + 1).filter(
                    ip,
                ).map_values(int_val_fn()));
            }
        } else {
            proof {
                reveal(Seq::filter);
                assert(!ip(pv));
                assert(all.take(j as int + 1).filter(ip) =~= all.take(j as int).filter(ip));
            }
        }
        j = j + 1;
    }
    proof {
        assert(all.take(all.len() as int) =~= all);
    }
    r
}


/// Splitting yields at most one piece more than there are characters.
pub proof fn lemma_split_if_count(s: Seq<char>, pred: spec_fn(char) -> bool)
    ensures
        split_if(s, pred).len() <= s.len() + 1,
    decreases s.len(),
{
    lemma_find_if(s, pred);
    let k = find_if(s, pred);
    if k < s.len() {
        lemma_split_if_count(s.skip(k as int + 1), pred);
    }
}


/// A rectangular grid text: every line is exactly as long as the first
/// row (the empty text has no lines and counts as rectangular).
pub open spec fn rect_grid(s: Seq<char>) -> bool {
    forall|i: int|
        0 <= i < lines_of(s).len() ==> (#[trigger] lines_of(s)[i]).len() == find_char(s, '\n')
}


/// Every element of a filtered piece list occurs among the pieces.
proof fn lemma_filter_piece_member(ps: Seq<Seq<char>>, pred: spec_fn(Seq<char>) -> bool, k: int)
    requires
        0 <= k < ps.filter(pred).len(),
    ensures
        ps.contains(ps.filter(pred)[k]),
    decreases ps.len(),
{
    reveal(Seq::filter);
    if ps.len() > 0 {
        let d = ps.drop_last();
        if pred(ps.last()) && k == ps.filter(pred).len() - 1 {
            assert(ps.filter(pred)[k] == ps.last());
            assert(ps[ps.len() - 1] == ps.last());
        } else {
            assert(ps.filter(pred)[k] == d.filter(pred)[k]);
            lemma_filter_piece_member(d, pred, k);
            let j = choose|j: int| 0 <= j < d.len() && d[j] == d.filter(pred)[k];
            assert(ps[j] == d[j]);
        }
    }
}

/// When every number token of `s` lies in a range, so does every entry of
/// `numbers_of(s)`.
pub proof fn lemma_numbers_of_bounds(s: Seq<char>, lo: int, hi: int)
    requires
        forall|p: Seq<char>|
            split_if(s, non_number_pred()).contains(p) && is_int_literal(p) ==> lo
                <= #[trigger] int_val(p) <= hi,
    ensures
        forall|k: int| 0 <= k < numbers_of(s).len() ==> lo <= #[trigger] numbers_of(s)[k] <= hi,
{
    let pieces = split_if(s, non_number_pred());
    let lit = pieces.filter(int_literal_pred());
    assert forall|k: int| 0 <= k < numbers_of(s).len() implies lo <= #[trigger] numbers_of(s)[k]
        <= hi by {
        assert(numbers_of(s)[k] == int_val_fn()(lit[k]));
        pieces.lemma_filter_pred(int_literal_pred(), k);
        assert(is_int_literal(lit[k]));
        lemma_filter_piece_member(pieces, int_literal_pred(), k);
        assert(pieces.contains(lit[k]));
    }
}

} // verus!
