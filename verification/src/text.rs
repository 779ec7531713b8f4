use vstd::prelude::*;

verus! {

/// `s` cut at every occurrence of `sep`: the pieces between separators, in
/// order, as `str::split` with a character pattern yields them. There is
/// always at least one piece.
pub open spec fn split_on(s: Seq<char>, sep: char) -> Seq<Seq<char>>
    decreases s.len(),
{
    if s.len() == 0 {
        seq![Seq::<char>::empty()]
    } else {
        let init = split_on(s.drop_last(), sep);
        if s.last() == sep {
            init.push(Seq::<char>::empty())
        } else {
            init.update(init.len() - 1, init.last().push(s.last()))
        }
    }
}

/// The pieces of `parts` glued together with one `sep` between neighbours.
pub open spec fn join_with(parts: Seq<Seq<char>>, sep: char) -> Seq<char>
    decreases parts.len(),
{
    if parts.len() == 0 {
        Seq::<char>::empty()
    } else if parts.len() == 1 {
        parts[0]
    } else {
        join_with(parts.drop_last(), sep) + seq![sep] + parts.last()
    }
}

/// The views of a vector of strings.
pub open spec fn string_views(v: Seq<String>) -> Seq<Seq<char>> {
    v.map_values(|p: String| p@)
}

pub proof fn lemma_split_nonempty(s: Seq<char>, sep: char)
    ensures
        split_on(s, sep).len() >= 1,
    decreases s.len(),
{
    if s.len() > 0 {
        lemma_split_nonempty(s.drop_last(), sep);
    }
}

/// No piece of a split holds the separator.
pub proof fn lemma_split_pieces_free(s: Seq<char>, sep: char)
    ensures
        forall|i: int|
            0 <= i < split_on(s, sep).len() ==> !(#[trigger] split_on(s, sep)[i]).contains(sep),
    decreases s.len(),
{
    if s.len() > 0 {
        lemma_split_nonempty(s.drop_last(), sep);
        lemma_split_pieces_free(s.drop_last(), sep);
        let init = split_on(s.drop_last(), sep);
        if s.last() != sep {
            assert forall|i: int|
                0 <= i < split_on(s, sep).len() implies !(#[trigger] split_on(s, sep)[i]).contains(
                sep,
            ) by {
                if i == init.len() - 1 {
                    let p = init.last().push(s.last());
                    assert(split_on(s, sep)[i] == p);
                    if p.contains(sep) {
                        let k = choose|k: int| 0 <= k < p.len() && p[k] == sep;
                        assert(init.last()[k] == sep);
                    }
                }
            }
        }
    }
}

/// Splitting two texts glued with the separator gives the pieces of both.
pub proof fn lemma_split_concat(x: Seq<char>, y: Seq<char>, sep: char)
    ensures
        split_on(x + seq![sep] + y, sep) == split_on(x, sep) + split_on(y, sep),
    decreases y.len(),
{
    let s = x + seq![sep] + y;
    if y.len() == 0 {
        assert(s.drop_last() =~= x);
        assert(split_on(y, sep) =~= seq![Seq::<char>::empty()]);
        assert(split_on(s, sep) =~= split_on(x, sep) + split_on(y, sep));
    } else {
        let y0 = y.drop_last();
        lemma_split_concat(x, y0, sep);
        lemma_split_nonempty(y0, sep);
        assert(s.drop_last() =~= x + seq![sep] + y0);
        assert(s.last() == y.last());
        assert(split_on(s, sep) =~= split_on(x, sep) + split_on(y, sep));
    }
}

/// Splitting a string with no separator in it gives the string itself.
pub proof fn lemma_split_free(s: Seq<char>, sep: char)
    requires
        !s.contains(sep),
    ensures
        split_on(s, sep) == seq![s],
    decreases s.len(),
{
    if s.len() > 0 {
        assert(!s.drop_last().contains(sep)) by {
            if s.drop_last().contains(sep) {
                let k = choose|k: int| 0 <= k < s.drop_last().len() && s.drop_last()[k] == sep;
                assert(s[k] == sep);
            }
        }
        lemma_split_free(s.drop_last(), sep);
        assert(s.last() != sep);
        assert(s.drop_last().push(s.last()) =~= s);
        assert(split_on(s, sep) =~= seq![s]);
    } else {
        assert(s =~= Seq::<char>::empty());
    }
}

proof fn lemma_join_grow_last(parts: Seq<Seq<char>>, sep: char, c: char)
    requires
        parts.len() >= 1,
    ensures
        join_with(parts.update(parts.len() - 1, parts.last().push(c)), sep) == join_with(
            parts,
            sep,
        ).push(c),
{
    let up = parts.update(parts.len() - 1, parts.last().push(c));
    if parts.len() == 1 {
    } else {
        assert(up.drop_last() =~= parts.drop_last());
        assert(join_with(up, sep) == join_with(parts.drop_last(), sep) + seq![sep]
            + parts.last().push(c));
        assert(join_with(up, sep) =~= join_with(parts, sep).push(c));
    }
}

/// Joining the pieces of a split gives back the string that was split.
pub proof fn lemma_join_split(s: Seq<char>, sep: char)
    ensures
        join_with(split_on(s, sep), sep) == s,
    decreases s.len(),
{
    if s.len() == 0 {
    } else {
        lemma_split_nonempty(s.drop_last(), sep);
        lemma_join_split(s.drop_last(), sep);
        let init = split_on(s.drop_last(), sep);
        if s.last() == sep {
            let parts = init.push(Seq::<char>::empty());
            assert(parts.drop_last() =~= init);
            assert(join_with(parts, sep) =~= s);
        } else {
            lemma_join_grow_last(init, sep, s.last());
            assert(s.drop_last().push(s.last()) =~= s);
        }
    }
}

/// `String::push`: appends one character.
#[verifier::external_body]
pub(crate) fn push_char(s: &mut String, c: char)
    ensures
        final(s)@ == old(s)@.push(c),
{
    s.push(c);
}

/// The characters of a string slice, in order.
pub fn chars_of(s: &str) -> (out: Vec<char>)
    ensures
        out@ == s@,
{
    let mut out: Vec<char> = Vec::new();
    for c in it: s.chars()
        invariant
            out@ == it.seq().take(it.index() as int),
    {
        out.push(c);
    }
    out
}

/// The pieces of `s` between occurrences of `sep`, as `str::split` gives them.
pub fn split_str(s: &str, sep: char) -> (pieces: Vec<String>)
    ensures
        string_views(pieces@) == split_on(s@, sep),
{
    let chars = chars_of(s);
    let mut pieces: Vec<String> = Vec::new();
    let mut cur = String::new();
    let mut i: usize = 0;
    assert(chars@.take(0) =~= Seq::<char>::empty());
    while i < chars.len()
        invariant
            chars@ == s@,
            0 <= i <= chars.len(),
            string_views(pieces@).push(cur@) == split_on(chars@.take(i as int), sep),
        decreases chars.len() - i,
    {
        let c = chars[i];
        proof {
            lemma_split_nonempty(chars@.take(i as int), sep);
            assert(chars@.take(i + 1).drop_last() =~= chars@.take(i as int));
        }
        if c == sep {
            let done = cur;
            pieces.push(done);
            cur = String::new();
            assert(string_views(pieces@) =~= string_views(pieces@.drop_last()).push(done@));
        } else {
            push_char(&mut cur, c);
        }
        i = i + 1;
        assert(string_views(pieces@).push(cur@) =~= split_on(chars@.take(i as int), sep));
    }
    assert(chars@.take(i as int) =~= s@);
    let last = cur;
    pieces.push(last);
    assert(string_views(pieces@) =~= string_views(pieces@.drop_last()).push(last@));
    pieces
}

} // verus!
