use vstd::prelude::*;

verus! {

broadcast use vstd::string::group_string_axioms;

/// `i` is the position of the first `c` in `s`.
pub open spec fn is_first(s: Seq<char>, c: char, i: int) -> bool {
    &&& 0 <= i < s.len()
    &&& s[i] == c
    &&& forall|j: int| 0 <= j < i ==> s[j] != c
}

/// What `str::split_once` gives for a one-character pattern: the text
/// before the first `c` and the text after it, or `None` when `c` does
/// not occur.
pub open spec fn split_once(s: Seq<char>, c: char) -> Option<(Seq<char>, Seq<char>)> {
    if exists|i: int| is_first(s, c, i) {
        let i = choose|i: int| is_first(s, c, i);
        Some((s.take(i), s.skip(i + 1)))
    } else {
        None
    }
}

/// The pieces of `s` between the occurrences of `c` (`str::split` with a
/// one-character pattern): empty pieces are kept, and there is always at
/// least one piece.
pub open spec fn split_pieces(s: Seq<char>, c: char) -> Seq<Seq<char>>
    decreases s.len(),
{
    if exists|i: int| is_first(s, c, i) {
        let i = choose|i: int| is_first(s, c, i);
        seq![s.take(i)] + split_pieces(s.skip(i + 1), c)
    } else {
        seq![s]
    }
}

/// A line without the carriage return that ends it, if any.
pub open spec fn strip_cr(s: Seq<char>) -> Seq<char> {
    if s.len() > 0 && s.last() == '\r' {
        s.drop_last()
    } else {
        s
    }
}

/// The lines of `s` as `str::lines` gives them: split after each `\n`,
/// with the `\n` (or `\r\n`) removed; no empty line after a final `\n`.
pub open spec fn lines(s: Seq<char>) -> Seq<Seq<char>>
    decreases s.len(),
{
    if s.len() == 0 {
        seq![]
    } else if exists|i: int| is_first(s, '\n', i) {
        let i = choose|i: int| is_first(s, '\n', i);
        seq![strip_cr(s.take(i))] + lines(s.skip(i + 1))
    } else {
        seq![s]
    }
}

/// `s` without its leading NUL characters.
pub open spec fn trim_nul_start(s: Seq<char>) -> Seq<char>
    decreases s.len(),
{
    if s.len() > 0 && s[0] == '\0' {
        trim_nul_start(s.drop_first())
    } else {
        s
    }
}

/// `s` without its trailing NUL characters.
pub open spec fn trim_nul_end(s: Seq<char>) -> Seq<char>
    decreases s.len(),
{
    if s.len() > 0 && s.last() == '\0' {
        trim_nul_end(s.drop_last())
    } else {
        s
    }
}

/// `s` without NUL characters at either end (`str::trim_matches('\0')`).
pub open spec fn trim_nul(s: Seq<char>) -> Seq<char> {
    trim_nul_end(trim_nul_start(s))
}

/// The views of a sequence of strings.
pub open spec fn views(v: Seq<String>) -> Seq<Seq<char>> {
    v.map_values(|x: String| x@)
}

pub proof fn lemma_first_unique(s: Seq<char>, c: char, i: int, j: int)
    requires
        is_first(s, c, i),
        is_first(s, c, j),
    ensures
        i == j,
{
    if i < j {
        assert(s[i] != c);
    } else if j < i {
        assert(s[j] != c);
    }
}

/// The characters of `s`, in order.
pub fn chars_of(s: &str) -> (v: Vec<char>)
    ensures
        v@ == s@,
{
    let mut v: Vec<char> = Vec::new();
    for c in it: s.chars()
        invariant
            it.seq() == s@,
            v@ == it.seq().take(it.index() as int),
    {
        v.push(c);
    }
    v
}

/// The position of the first `c` in `v` at or after `from`.
pub fn find_from(v: &Vec<char>, from: usize, c: char) -> (r: Option<usize>)
    requires
        from <= v.len(),
    ensures
        match r {
            Some(i) => from <= i && is_first(v@.skip(from as int), c, i - from),
            None => forall|j: int| from <= j < v.len() ==> v@[j] != c,
        },
{
    let mut i = from;
    while i < v.len()
        invariant
            from <= i <= v.len(),
            forall|j: int| from <= j < i ==> v@[j] != c,
        decreases v.len() - i,
    {
        if v[i] == c {
            assert forall|j: int| 0 <= j < i - from implies v@.skip(from as int)[j] != c by {
                assert(v@.skip(from as int)[j] == v@[j + from]);
            }
            return Some(i);
        }
        i = i + 1;
    }
    None
}

/// A `String` holding the characters of `s` from `from` to `to`.
pub fn substring(s: &str, from: usize, to: usize) -> (r: String)
    requires
        from <= to <= s@.len(),
    ensures
        r@ == s@.subrange(from as int, to as int),
{
    String::from_str(s.substring_char(from, to))
}

/// `str::split_once` with a one-character pattern.
pub fn split_once_char(s: &str, c: char) -> (r: Option<(String, String)>)
    ensures
        match split_once(s@, c) {
            Some((a, b)) => r matches Some((x, y)) && x@ == a && y@ == b,
            None => r is None,
        },
{
    let v = chars_of(s);
    match find_from(&v, 0, c) {
        Some(i) => {
            assert(v@.skip(0) =~= v@);
            proof {
                let k = choose|k: int| is_first(s@, c, k);
                lemma_first_unique(s@, c, i as int, k);
            }
            Some((substring(s, 0, i), substring(s, i + 1, v.len())))
        },
        None => None,
    }
}

/// `str::split` with a one-character pattern.
pub fn split_char(s: &str, c: char) -> (r: Vec<String>)
    ensures
        views(r@) == split_pieces(s@, c),
{
    let v = chars_of(s);
    let mut r: Vec<String> = Vec::new();
    let mut start: usize = 0;
    assert(s@.skip(0) =~= s@);
    assert(views(r@) =~= Seq::<Seq<char>>::empty());
    assert(views(r@) + split_pieces(s@.skip(0), c) =~= split_pieces(s@, c));
    loop
        invariant
            v@ == s@,
            start <= v.len(),
            views(r@) + split_pieces(s@.skip(start as int), c) == split_pieces(s@, c),
        decreases v.len() - start,
    {
        let ghost rest = s@.skip(start as int);
        match find_from(&v, start, c) {
            Some(i) => {
                proof {
                    let k = choose|k: int| is_first(rest, c, k);
                    lemma_first_unique(rest, c, (i - start) as int, k);
                    assert(rest.take(i - start) =~= s@.subrange(start as int, i as int));
                    assert(rest.skip(i - start + 1) =~= s@.skip(i + 1));
                }
                let piece = substring(s, start, i);
                let ghost old_r = r@;
                r.push(piece);
                assert(views(r@) =~= views(old_r).push(piece@));
                assert(views(r@) + split_pieces(s@.skip(i + 1), c) =~= views(old_r) + split_pieces(rest, c));
                start = i + 1;
            },
            None => {
                proof {
                    if exists|k: int| is_first(rest, c, k) {
                        let k = choose|k: int| is_first(rest, c, k);
                        assert(v@[k + start] == c);
                    }
                    assert(rest =~= s@.subrange(start as int, v.len() as int));
                }
                let piece = substring(s, start, v.len());
                let ghost old_r = r@;
                r.push(piece);
                assert(views(r@) =~= views(old_r).push(piece@));
                assert(views(r@) =~= views(old_r) + split_pieces(rest, c));
                return r;
            },
        }
    }
}

/// `str::lines`.
pub fn lines_of(s: &str) -> (r: Vec<String>)
    ensures
        views(r@) == lines(s@),
{
    let v = chars_of(s);
    let mut r: Vec<String> = Vec::new();
    let mut start: usize = 0;
    assert(s@.skip(0) =~= s@);
    assert(views(r@) + lines(s@.skip(0)) =~= lines(s@));
    loop
        invariant
            v@ == s@,
            start <= v.len(),
            views(r@) + lines(s@.skip(start as int)) == lines(s@),
        decreases v.len() - start,
    {
        let ghost rest = s@.skip(start as int);
        if start == v.len() {
            assert(rest.len() == 0);
            assert(views(r@) =~= lines(s@));
            return r;
        }
        match find_from(&v, start, '\n') {
            Some(i) => {
                proof {
                    let k = choose|k: int| is_first(rest, '\n', k);
                    lemma_first_unique(rest, '\n', (i - start) as int, k);
                    assert(rest.take(i - start) =~= s@.subrange(start as int, i as int));
                    assert(rest.skip(i - start + 1) =~= s@.skip(i + 1));
                }
                let end = if i > start && v[i - 1] == '\r' { i - 1 } else { i };
                let piece = substring(s, start, end);
                assert(piece@ =~= strip_cr(rest.take(i - start)));
                let ghost old_r = r@;
                r.push(piece);
                assert(views(r@) =~= views(old_r).push(piece@));
                assert(views(r@) + lines(s@.skip(i + 1)) =~= views(old_r) + lines(rest));
                start = i + 1;
            },
            None => {
                proof {
                    if exists|k: int| is_first(rest, '\n', k) {
                        let k = choose|k: int| is_first(rest, '\n', k);
                        assert(v@[k + start] == '\n');
                    }
                    assert(rest =~= s@.subrange(start as int, v.len() as int));
                }
                let piece = substring(s, start, v.len());
                let ghost old_r = r@;
                r.push(piece);
                assert(views(r@) =~= views(old_r).push(piece@));
                assert(views(r@) =~= views(old_r) + lines(rest));
                return r;
            },
        }
    }
}

/// `str::trim_matches('\0')`.
pub fn trim_nul_of(s: &str) -> (r: String)
    ensures
        r@ == trim_nul(s@),
{
    let v = chars_of(s);
    let mut lo: usize = 0;
    assert(s@.skip(0) =~= s@);
    while lo < v.len() && v[lo] == '\0'
        invariant
            v@ == s@,
            lo <= v.len(),
            trim_nul_start(s@.skip(lo as int)) == trim_nul_start(s@),
        decreases v.len() - lo,
    {
        assert(s@.skip(lo as int).drop_first() =~= s@.skip(lo + 1));
        lo = lo + 1;
    }
    assert(trim_nul_start(s@) == s@.skip(lo as int));
    let mut hi: usize = v.len();
    assert(s@.skip(lo as int) =~= s@.subrange(lo as int, hi as int));
    while hi > lo && v[hi - 1] == '\0'
        invariant
            v@ == s@,
            lo <= hi <= v.len(),
            trim_nul_end(s@.subrange(lo as int, hi as int)) == trim_nul(s@),
        decreases hi,
    {
        assert(s@.subrange(lo as int, hi as int).drop_last() =~= s@.subrange(lo as int, hi - 1));
        hi = hi - 1;
    }
    substring(s, lo, hi)
}


/// Every character of `s` is NUL.
pub open spec fn all_nul(s: Seq<char>) -> bool {
    forall|i: int| 0 <= i < s.len() ==> s[i] == '\0'
}

/// NUL characters put before a text are trimmed off its start.
pub proof fn lemma_trim_nul_start_prefix(pre: Seq<char>, s: Seq<char>)
    requires
        all_nul(pre),
    ensures
        trim_nul_start(pre + s) == trim_nul_start(s),
    decreases pre.len(),
{
    if pre.len() == 0 {
        assert(pre + s =~= s);
    } else {
        assert((pre + s)[0] == '\0');
        assert((pre + s).drop_first() =~= pre.drop_first() + s);
        lemma_trim_nul_start_prefix(pre.drop_first(), s);
    }
}

/// NUL characters put after a text are trimmed off its end.
pub proof fn lemma_trim_nul_end_suffix(s: Seq<char>, post: Seq<char>)
    requires
        all_nul(post),
    ensures
        trim_nul_end(s + post) == trim_nul_end(s),
    decreases post.len(),
{
    if post.len() == 0 {
        assert(s + post =~= s);
    } else {
        assert((s + post).last() == '\0');
        assert((s + post).drop_last() =~= s + post.drop_last());
        lemma_trim_nul_end_suffix(s, post.drop_last());
    }
}

/// Trimming the start of a text followed by NUL characters: nothing is
/// left when nothing is left of the text, else what is left of the text
/// followed by those characters.
pub proof fn lemma_trim_nul_start_suffix(s: Seq<char>, post: Seq<char>)
    requires
        all_nul(post),
    ensures
        trim_nul_start(s).len() == 0 ==> trim_nul_start(s + post).len() == 0,
        trim_nul_start(s).len() > 0 ==> trim_nul_start(s + post) == trim_nul_start(s) + post,
    decreases s.len(),
{
    if s.len() == 0 {
        assert(s + post =~= post);
        lemma_trim_nul_start_prefix(post, Seq::<char>::empty());
        assert(post + Seq::<char>::empty() =~= post);
    } else if s[0] == '\0' {
        assert((s + post)[0] == '\0');
        assert((s + post).drop_first() =~= s.drop_first() + post);
        lemma_trim_nul_start_suffix(s.drop_first(), post);
    } else {
        assert((s + post)[0] == s[0]);
    }
}

/// NUL characters at either end of a text change nothing of what
/// `trim_nul` leaves of it.
pub proof fn lemma_trim_nul_padding(pre: Seq<char>, s: Seq<char>, post: Seq<char>)
    requires
        all_nul(pre),
        all_nul(post),
    ensures
        trim_nul(pre + s + post) == trim_nul(s),
{
    assert(pre + s + post =~= pre + (s + post));
    lemma_trim_nul_start_prefix(pre, s + post);
    lemma_trim_nul_start_suffix(s, post);
    if trim_nul_start(s).len() == 0 {
        assert(trim_nul_start(s + post) =~= Seq::<char>::empty());
        assert(trim_nul_start(s) =~= Seq::<char>::empty());
    } else {
        lemma_trim_nul_end_suffix(trim_nul_start(s), post);
    }
}

} // verus!
