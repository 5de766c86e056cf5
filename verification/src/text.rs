use vstd::prelude::*;

verus! {

/// The characters of a string, in order.
pub(crate) fn chars_of(s: &str) -> (v: Vec<char>)
    ensures
        v@ == s@,
{
    broadcast use vstd::string::group_string_axioms;

    let mut v: Vec<char> = Vec::new();
    for c in it: s.chars()
        invariant
            it.seq() == s@,
            v@ == s@.take(it.index()),
    {
        v.push(c);
        assert(v@ =~= s@.take(it.index() + 1));
    }
    assert(s@.take(s@.len() as int) =~= s@);
    v
}

/// Unicode `White_Space` characters: those for which `char::is_whitespace`
/// holds, and those that the regex class `\s` matches.
pub open spec fn is_white_space(c: char) -> bool {
    let u = c as u32;
    ||| 0x09 <= u <= 0x0d
    ||| u == 0x20
    ||| u == 0x85
    ||| u == 0xa0
    ||| u == 0x1680
    ||| 0x2000 <= u <= 0x200a
    ||| u == 0x2028
    ||| u == 0x2029
    ||| u == 0x202f
    ||| u == 0x205f
    ||| u == 0x3000
}

pub fn white_space(c: char) -> (b: bool)
    ensures
        b == is_white_space(c),
{
    let u = c as u32;
    (0x09 <= u && u <= 0x0d) || u == 0x20 || u == 0x85 || u == 0xa0 || u == 0x1680 || (0x2000 <= u
        && u <= 0x200a) || u == 0x2028 || u == 0x2029 || u == 0x202f || u == 0x205f || u == 0x3000
}

/// Index of the first character that is not white space (the length if none is).
pub open spec fn first_non_space(s: Seq<char>) -> int
    decreases s.len(),
{
    if s.len() == 0 || !is_white_space(s[0]) {
        0
    } else {
        1 + first_non_space(s.drop_first())
    }
}

/// One past the index of the last character that is not white space (0 if none is).
pub open spec fn end_non_space(s: Seq<char>) -> int
    decreases s.len(),
{
    if s.len() == 0 || !is_white_space(s.last()) {
        s.len() as int
    } else {
        end_non_space(s.drop_last())
    }
}

/// `s` without its leading and trailing white space.
pub open spec fn trim(s: Seq<char>) -> Seq<char> {
    if first_non_space(s) >= s.len() {
        Seq::empty()
    } else {
        s.subrange(first_non_space(s), end_non_space(s))
    }
}

proof fn lemma_first_non_space(s: Seq<char>, i: int)
    requires
        0 <= i <= s.len(),
        forall|k: int| 0 <= k < i ==> is_white_space(#[trigger] s[k]),
        i == s.len() || !is_white_space(s[i]),
    ensures
        first_non_space(s) == i,
    decreases s.len(),
{
    if s.len() > 0 && i > 0 {
        assert forall|k: int| 0 <= k < i - 1 implies is_white_space(#[trigger] s.drop_first()[k]) by {
            assert(s.drop_first()[k] == s[k + 1]);
        }
        lemma_first_non_space(s.drop_first(), i - 1);
    }
}

proof fn lemma_end_non_space(s: Seq<char>, j: int)
    requires
        0 <= j <= s.len(),
        forall|k: int| j <= k < s.len() ==> is_white_space(#[trigger] s[k]),
        j == 0 || !is_white_space(s[j - 1]),
    ensures
        end_non_space(s) == j,
    decreases s.len(),
{
    if s.len() > 0 && j < s.len() {
        assert forall|k: int| j <= k < s.len() - 1 implies is_white_space(#[trigger] s.drop_last()[k]) by {
            assert(s.drop_last()[k] == s[k]);
        }
        lemma_end_non_space(s.drop_last(), j);
    }
}

/// The bounds of `s` without its leading and trailing white space, as
/// `str::trim` takes them.
pub fn trim_range(s: &Vec<char>) -> (r: (usize, usize))
    ensures
        r.0 <= r.1 <= s@.len(),
        s@.subrange(r.0 as int, r.1 as int) == trim(s@),
{
    let n: usize = s.len();
    let mut i: usize = 0;
    while i < n && white_space(s[i])
        invariant
            n == s@.len(),
            0 <= i <= n,
            forall|k: int| 0 <= k < i ==> is_white_space(#[trigger] s@[k]),
        decreases n - i,
    {
        i = i + 1;
    }
    proof {
        lemma_first_non_space(s@, i as int);
    }
    if i == n {
        assert(s@.subrange(n as int, n as int) =~= Seq::<char>::empty());
        return (n, n);
    }
    let mut j: usize = n;
    while j > i && white_space(s[j - 1])
        invariant
            n == s@.len(),
            i < n,
            !is_white_space(s@[i as int]),
            i <= j <= n,
            forall|k: int| j <= k < n ==> is_white_space(#[trigger] s@[k]),
        decreases j,
    {
        j = j - 1;
    }
    proof {
        lemma_end_non_space(s@, j as int);
    }
    (i, j)
}

proof fn lemma_first_non_space_props(s: Seq<char>)
    ensures
        0 <= first_non_space(s) <= s.len(),
        forall|i: int| 0 <= i < first_non_space(s) ==> is_white_space(#[trigger] s[i]),
        first_non_space(s) < s.len() ==> !is_white_space(s[first_non_space(s)]),
    decreases s.len(),
{
    if s.len() > 0 && is_white_space(s[0]) {
        let t = s.drop_first();
        lemma_first_non_space_props(t);
        assert forall|i: int| 0 <= i < first_non_space(s) implies is_white_space(#[trigger] s[i]) by {
            if i > 0 {
                assert(s[i] == t[i - 1]);
            }
        }
        if first_non_space(s) < s.len() {
            assert(s[first_non_space(s)] == t[first_non_space(t)]);
        }
    }
}

proof fn lemma_end_non_space_props(s: Seq<char>, f: int)
    requires
        0 <= f < s.len(),
        !is_white_space(s[f]),
    ensures
        f < end_non_space(s) <= s.len(),
        forall|i: int| end_non_space(s) <= i < s.len() ==> is_white_space(#[trigger] s[i]),
        !is_white_space(s[end_non_space(s) - 1]),
    decreases s.len(),
{
    if is_white_space(s.last()) {
        let d = s.drop_last();
        assert(d[f] == s[f]);
        lemma_end_non_space_props(d, f);
        assert forall|i: int| end_non_space(s) <= i < s.len() implies is_white_space(#[trigger] s[i]) by {
            if i < s.len() - 1 {
                assert(s[i] == d[i]);
            }
        }
        assert(s[end_non_space(s) - 1] == d[end_non_space(d) - 1]);
    }
}

/// Trimming removes white space only: the result is the part of `s` between
/// some `a` and `b`, everything before `a` and from `b` on is white space,
/// and a non-empty result starts and ends with a character that is not.
pub proof fn law_trim_removes_only_white_space(s: Seq<char>)
    ensures
        exists|a: int, b: int|
            #![trigger s.subrange(a, b)]
            0 <= a <= b <= s.len() && trim(s) == s.subrange(a, b) && (forall|i: int|
                0 <= i < a ==> is_white_space(#[trigger] s[i])) && (forall|i: int|
                b <= i < s.len() ==> is_white_space(#[trigger] s[i])),
        trim(s).len() > 0 ==> !is_white_space(trim(s)[0]) && !is_white_space(
            trim(s)[trim(s).len() - 1],
        ),
{
    lemma_first_non_space_props(s);
    let f = first_non_space(s);
    if f >= s.len() {
        assert(trim(s) =~= s.subrange(f, f));
        assert(forall|i: int| f <= i < s.len() ==> is_white_space(#[trigger] s[i]));
    } else {
        lemma_end_non_space_props(s, f);
        let e = end_non_space(s);
        assert(trim(s) == s.subrange(f, e));
        assert(trim(s)[0] == s[f]);
        assert(trim(s)[trim(s).len() - 1] == s[e - 1]);
    }
}

/// The pieces of `s` between commas, as `str::split(",")` yields them: one
/// more piece than there are commas, empty pieces included.
pub open spec fn split_commas(s: Seq<char>) -> Seq<Seq<char>>
    decreases s.len(),
{
    if s.len() == 0 {
        seq![Seq::empty()]
    } else {
        let pieces = split_commas(s.drop_last());
        if s.last() == ',' {
            pieces.push(Seq::empty())
        } else {
            pieces.update(pieces.len() - 1, pieces.last().push(s.last()))
        }
    }
}

proof fn lemma_split_nonempty(s: Seq<char>)
    ensures
        split_commas(s).len() >= 1,
    decreases s.len(),
{
    if s.len() > 0 {
        lemma_split_nonempty(s.drop_last());
    }
}

/// A string without commas is one piece.
pub proof fn lemma_split_no_comma(s: Seq<char>)
    requires
        forall|i: int| 0 <= i < s.len() ==> #[trigger] s[i] != ',',
    ensures
        split_commas(s) == seq![s],
    decreases s.len(),
{
    if s.len() > 0 {
        let d = s.drop_last();
        assert forall|i: int| 0 <= i < d.len() implies #[trigger] d[i] != ',' by {
            assert(d[i] == s[i]);
        }
        lemma_split_no_comma(d);
        assert(s.last() == s[s.len() - 1]);
        assert(d.push(s.last()) =~= s);
    } else {
        assert(s =~= Seq::<char>::empty());
    }
}

/// A string with a comma splits into at least two pieces.
pub proof fn lemma_split_with_comma(s: Seq<char>, j: int)
    requires
        0 <= j < s.len(),
        s[j] == ',',
    ensures
        split_commas(s).len() >= 2,
    decreases s.len(),
{
    let d = s.drop_last();
    lemma_split_nonempty(d);
    if j < s.len() - 1 {
        assert(d[j] == s[j]);
        lemma_split_with_comma(d, j);
    }
}

/// The first piece is the text before the first comma.
pub proof fn lemma_split_first(s: Seq<char>, j: int)
    requires
        0 <= j <= s.len(),
        forall|i: int| 0 <= i < j ==> #[trigger] s[i] != ',',
        j == s.len() || s[j] == ',',
    ensures
        split_commas(s).len() >= 1,
        split_commas(s)[0] == s.subrange(0, j),
    decreases s.len(),
{
    lemma_split_nonempty(s);
    if j == s.len() {
        lemma_split_no_comma(s);
        assert(s.subrange(0, j) =~= s);
    } else {
        let d = s.drop_last();
        lemma_split_nonempty(d);
        if j == s.len() - 1 {
            assert forall|i: int| 0 <= i < d.len() implies #[trigger] d[i] != ',' by {
                assert(d[i] == s[i]);
            }
            lemma_split_no_comma(d);
            assert(s.last() == s[j]);
            assert(d =~= s.subrange(0, j));
        } else {
            assert(d[j] == s[j]);
            assert forall|i: int| 0 <= i < j implies #[trigger] d[i] != ',' by {
                assert(d[i] == s[i]);
            }
            lemma_split_first(d, j);
            lemma_split_with_comma(d, j);
            assert(d.subrange(0, j) =~= s.subrange(0, j));
        }
    }
}

/// The bounds of the pieces of `s` between commas, in order.
pub fn split_ranges(s: &Vec<char>) -> (r: Vec<(usize, usize)>)
    ensures
        r@.len() == split_commas(s@).len(),
        forall|k: int|
            #![trigger r@[k]]
            0 <= k < r@.len() ==> r@[k].0 <= r@[k].1 <= s@.len() && s@.subrange(
                r@[k].0 as int,
                r@[k].1 as int,
            ) == split_commas(s@)[k],
{
    let n: usize = s.len();
    let mut done: Vec<(usize, usize)> = Vec::new();
    let mut start: usize = 0;
    let mut i: usize = 0;
    while i < n
        invariant
            n == s@.len(),
            0 <= start <= i <= n,
            split_commas(s@.take(i as int)).len() == done@.len() + 1,
            forall|k: int|
                #![trigger done@[k]]
                0 <= k < done@.len() ==> done@[k].0 <= done@[k].1 <= i && s@.subrange(
                    done@[k].0 as int,
                    done@[k].1 as int,
                ) == split_commas(s@.take(i as int))[k],
            s@.subrange(start as int, i as int) == split_commas(s@.take(i as int)).last(),
        decreases n - i,
    {
        let c: char = s[i];
        let ghost pieces = split_commas(s@.take(i as int));
        let ghost old_done = done@;
        let ghost start_before = start;
        proof {
            assert(s@.take(i + 1).drop_last() =~= s@.take(i as int));
            assert(s@.take(i + 1).last() == c);
            lemma_split_nonempty(s@.take(i as int));
        }
        if c == ',' {
            done.push((start, i));
            start = i + 1;
            proof {
                let next = split_commas(s@.take(i + 1));
                assert(next == pieces.push(Seq::empty()));
                assert forall|k: int| 0 <= k < done@.len() implies done@[k].0 <= done@[k].1
                    <= i + 1 && s@.subrange(done@[k].0 as int, done@[k].1 as int) == next[k] by {
                    if k < old_done.len() {
                        assert(done@[k] == old_done[k]);
                        assert(next[k] == pieces[k]);
                    } else {
                        assert(done@[k] == (start_before, i));
                        assert(next[k] == pieces.last());
                    }
                }
                assert(s@.subrange(start as int, i + 1) =~= Seq::<char>::empty());
            }
        } else {
            proof {
                let next = split_commas(s@.take(i + 1));
                assert(next == pieces.update(pieces.len() - 1, pieces.last().push(c)));
                assert(s@.subrange(start as int, i + 1) =~= s@.subrange(start as int, i as int).push(c));
                assert forall|k: int| 0 <= k < done@.len() implies done@[k].0 <= done@[k].1
                    <= i + 1 && s@.subrange(done@[k].0 as int, done@[k].1 as int) == next[k] by {
                    assert(k < pieces.len() - 1);
                    assert(done@[k] == old_done[k]);
                    assert(done@[k].0 <= done@[k].1 <= i);
                    assert(s@.subrange(done@[k].0 as int, done@[k].1 as int) == pieces[k]);
                    assert(next[k] == pieces[k]);
                }
            }
        }
        i = i + 1;
    }
    done.push((start, n));
    proof {
        assert(s@.take(n as int) =~= s@);
    }
    done
}

} // verus!
