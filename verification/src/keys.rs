//! Derivation of canonical storage keys from path text.
//!
//! A key is the ordered sequence of non-empty path segments of a file's
//! position under the root, the same whichever separator style the
//! incoming path uses.

use vstd::prelude::*;

verus! {

/// A recognized path-separator character, in either platform style.
pub open spec fn is_sep(c: char) -> bool {
    c == '/' || c == '\\'
}

/// The views of a sequence of strings, element by element.
pub open spec fn str_seq_view(v: Seq<String>) -> Seq<Seq<char>> {
    Seq::new(v.len(), |i: int| v[i]@)
}

/// The canonical key sequence of a path remainder: its maximal runs of
/// non-separator characters, in order. Runs are never empty, so repeated
/// or stray separators contribute nothing.
pub open spec fn spec_segments(s: Seq<char>) -> Seq<Seq<char>>
    decreases s.len(),
{
    if s.len() == 0 {
        Seq::empty()
    } else {
        let init = spec_segments(s.drop_last());
        let c = s.last();
        if is_sep(c) {
            init
        } else if s.len() >= 2 && !is_sep(s[s.len() - 2]) {
            init.update(init.len() - 1, init.last().push(c))
        } else {
            init.push(seq![c])
        }
    }
}

fn is_sep_char(c: char) -> (b: bool)
    ensures
        b == is_sep(c),
{
    c == '/' || c == '\\'
}

/// Splits path text on either recognized separator into its ordered,
/// non-empty segments: the canonical key sequence.
pub fn split_filename(filename: &str) -> (segments: Vec<String>)
    ensures
        str_seq_view(segments@) == spec_segments(filename@),
{
    let n = filename.unicode_len();
    let mut segments: Vec<String> = Vec::new();
    let mut seg_start: usize = 0;
    let mut i: usize = 0;
    while i < n
        invariant
            n == filename@.len(),
            i <= n,
            seg_start <= i,
            forall|j: int| seg_start <= j < i ==> !is_sep(filename@[j]),
            seg_start == 0 || is_sep(filename@[seg_start - 1]),
            seg_start < i ==> str_seq_view(segments@).push(
                filename@.subrange(seg_start as int, i as int),
            ) == spec_segments(filename@.take(i as int)),
            seg_start == i ==> str_seq_view(segments@) == spec_segments(
                filename@.take(i as int),
            ),
        decreases n - i,
    {
        let c = filename.get_char(i);
        proof {
            assert(filename@.take(i + 1).drop_last() =~= filename@.take(i as int));
            assert(filename@.take(i + 1).last() == filename@[i as int]);
        }
        if is_sep_char(c) {
            if seg_start < i {
                let seg = filename.substring_char(seg_start, i).to_owned();
                proof {
                    assert(str_seq_view(segments@.push(seg)) =~= str_seq_view(segments@).push(
                        filename@.subrange(seg_start as int, i as int),
                    ));
                }
                segments.push(seg);
            }
            seg_start = i + 1;
        } else {
            if seg_start < i {
                proof {
                    let t = filename@.take(i + 1);
                    let init = spec_segments(filename@.take(i as int));
                    let prev = str_seq_view(segments@);
                    let run = filename@.subrange(seg_start as int, i as int);
                    assert(!is_sep(t[t.len() - 2]));
                    assert(init == prev.push(run));
                    assert(init.last() == run);
                    assert(init.update(init.len() - 1, run.push(filename@[i as int])) =~= prev.push(
                        run.push(filename@[i as int]),
                    ));
                    assert(run.push(filename@[i as int]) =~= filename@.subrange(
                        seg_start as int,
                        i + 1,
                    ));
                }
            } else {
                proof {
                    let t = filename@.take(i + 1);
                    if i > 0 {
                        assert(is_sep(t[t.len() - 2]));
                    }
                    assert(seq![filename@[i as int]] =~= filename@.subrange(seg_start as int, i + 1));
                }
            }
        }
        i = i + 1;
    }
    proof {
        assert(filename@.take(n as int) =~= filename@);
    }
    if seg_start < n {
        let seg = filename.substring_char(seg_start, n).to_owned();
        proof {
            assert(str_seq_view(segments@.push(seg)) =~= str_seq_view(segments@).push(
                filename@.subrange(seg_start as int, n as int),
            ));
        }
        segments.push(seg);
    }
    segments
}

/// The remote object key of a key sequence: its segments joined with the
/// single canonical separator.
pub open spec fn spec_join(segs: Seq<Seq<char>>) -> Seq<char>
    decreases segs.len(),
{
    if segs.len() == 0 {
        Seq::empty()
    } else if segs.len() == 1 {
        segs[0]
    } else {
        spec_join(segs.drop_last()) + seq!['/'] + segs.last()
    }
}

/// Joins key segments with the canonical forward-slash separator into the
/// remote object key.
pub fn join_key(segments: &Vec<String>) -> (joined: String)
    ensures
        joined@ == spec_join(str_seq_view(segments@)),
{
    let mut joined = String::new();
    let mut i: usize = 0;
    while i < segments.len()
        invariant
            i <= segments@.len(),
            joined@ == spec_join(str_seq_view(segments@.take(i as int))),
        decreases segments@.len() - i,
    {
        proof {
            reveal_strlit("/");
            assert(str_seq_view(segments@.take(i + 1)) =~= str_seq_view(
                segments@.take(i as int),
            ).push(segments@[i as int]@));
            let v = str_seq_view(segments@.take(i + 1));
            assert(v.drop_last() =~= str_seq_view(segments@.take(i as int)));
            if i == 0 {
                assert(joined@ + segments@[0]@ =~= segments@[0]@);
            } else {
                assert("/"@ =~= seq!['/']);
            }
        }
        if i > 0 {
            joined.append("/");
        }
        joined.append(segments[i].as_str());
        i = i + 1;
    }
    proof {
        assert(segments@.take(segments@.len() as int) =~= segments@);
    }
    joined
}

/// The remainder of `s` after any leading separators.
pub open spec fn drop_leading_seps(s: Seq<char>) -> Seq<char>
    decreases s.len(),
{
    if s.len() > 0 && is_sep(s[0]) {
        drop_leading_seps(s.skip(1))
    } else {
        s
    }
}

/// The remainder of a path once the root prefix is stripped, or `None`
/// where the path does not lie under the root: the root's text must be a
/// prefix and must end at a segment boundary.
pub open spec fn spec_strip(path: Seq<char>, root: Seq<char>) -> Option<Seq<char>> {
    if path.len() < root.len() || path.take(root.len() as int) != root {
        None
    } else {
        let rest = path.skip(root.len() as int);
        if rest.len() == 0 || root.len() == 0 || is_sep(rest[0]) || is_sep(root.last()) {
            Some(drop_leading_seps(rest))
        } else {
            None
        }
    }
}

/// Strips the root prefix from a path, yielding the relative remainder,
/// or `None` where the path does not lie under the root.
pub fn strip_path(path: &str, root: &str) -> (stripped: Option<String>)
    ensures
        match stripped {
            Some(s) => spec_strip(path@, root@) == Some(s@),
            None => spec_strip(path@, root@) is None,
        },
{
    let n = path.unicode_len();
    let m = root.unicode_len();
    if n < m {
        return None;
    }
    let mut j: usize = 0;
    while j < m
        invariant
            n == path@.len(),
            m == root@.len(),
            m <= n,
            j <= m,
            forall|t: int| 0 <= t < j ==> path@[t] == root@[t],
        decreases m - j,
    {
        if path.get_char(j) != root.get_char(j) {
            proof {
                assert(path@.take(m as int)[j as int] != root@[j as int]);
            }
            return None;
        }
        j = j + 1;
    }
    proof {
        assert(path@.take(m as int) =~= root@);
    }
    let boundary = if m == n || m == 0 {
        true
    } else if is_sep_char(path.get_char(m)) {
        proof {
            assert(path@.skip(m as int)[0] == path@[m as int]);
        }
        true
    } else if is_sep_char(root.get_char(m - 1)) {
        true
    } else {
        false
    };
    if !boundary {
        proof {
            assert(path@.skip(m as int)[0] == path@[m as int]);
        }
        return None;
    }
    let mut k: usize = m;
    while k < n && is_sep_char(path.get_char(k))
        invariant
            n == path@.len(),
            m <= k <= n,
            drop_leading_seps(path@.skip(m as int)) == drop_leading_seps(path@.skip(k as int)),
        decreases n - k,
    {
        proof {
            assert(path@.skip(k as int)[0] == path@[k as int]);
            assert(path@.skip(k as int).skip(1) =~= path@.skip(k + 1));
        }
        k = k + 1;
    }
    proof {
        if k < n {
            assert(path@.skip(k as int)[0] == path@[k as int]);
        }
        assert(drop_leading_seps(path@.skip(k as int)) == path@.skip(k as int));
        assert(path@.subrange(k as int, n as int) =~= path@.skip(k as int));
    }
    Some(path.substring_char(k, n).to_owned())
}

/// The canonical key of a file path relative to a root: the remainder
/// after the root, split into non-empty segments; `None` where the path
/// does not lie under the root.
pub open spec fn spec_key(path: Seq<char>, root: Seq<char>) -> Option<Seq<Seq<char>>> {
    match spec_strip(path, root) {
        Some(rest) => Some(spec_segments(rest)),
        None => None,
    }
}

/// Derives the canonical key sequence of a file path relative to the
/// root, or `None` where the path does not lie under the root.
pub fn derive_key(path: &str, root: &str) -> (key: Option<Vec<String>>)
    ensures
        match key {
            Some(k) => spec_key(path@, root@) == Some(str_seq_view(k@)),
            None => spec_key(path@, root@) is None,
        },
{
    match strip_path(path, root) {
        Some(rest) => Some(split_filename(rest.as_str())),
        None => None,
    }
}

/// Whether every segment is a well-formed key segment: non-empty and
/// free of separator characters.
pub open spec fn segments_wellformed(segs: Seq<Seq<char>>) -> bool {
    forall|i: int, j: int|
        0 <= i < segs.len() && 0 <= j < segs[i].len() ==> !is_sep(#[trigger] segs[i][j])
}

/// Law: key derivation yields only well-formed segments — every segment
/// of a split is non-empty and free of separator characters.
pub proof fn lemma_segments_wellformed(s: Seq<char>)
    ensures
        segments_wellformed(spec_segments(s)),
        forall|i: int| 0 <= i < spec_segments(s).len() ==> (#[trigger] spec_segments(s)[i]).len()
            > 0,
        s.len() > 0 && !is_sep(s.last()) ==> spec_segments(s).len() > 0,
    decreases s.len(),
{
    if s.len() > 0 {
        lemma_segments_wellformed(s.drop_last());
        let init = spec_segments(s.drop_last());
        let segs = spec_segments(s);
        let c = s.last();
        if !is_sep(c) {
            if s.len() >= 2 && !is_sep(s[s.len() - 2]) {
                assert(s.drop_last().last() == s[s.len() - 2]);
                assert(init.len() > 0);
                let last = init.len() - 1;
                let ext = init[last].push(c);
                assert(segs == init.update(last, ext));
                assert forall|i: int| 0 <= i < segs.len() implies (#[trigger] segs[i]).len()
                    > 0 by {
                    if i != last {
                        assert(segs[i] == init[i]);
                    }
                }
                assert forall|i: int, j: int|
                    0 <= i < segs.len() && 0 <= j < segs[i].len() implies !is_sep(
                    #[trigger] segs[i][j],
                ) by {
                    if i == last {
                        if j < init[last].len() {
                            assert(segs[i][j] == init[last][j]);
                            assert(!is_sep(init[last][j]));
                        } else {
                            assert(segs[i][j] == c);
                        }
                    } else {
                        assert(segs[i] == init[i]);
                    }
                }
            } else {
                assert(segs == init.push(seq![c]));
                assert forall|i: int, j: int|
                    0 <= i < segs.len() && 0 <= j < segs[i].len() implies !is_sep(
                    #[trigger] segs[i][j],
                ) by {
                    if i < init.len() {
                        assert(segs[i] == init[i]);
                    } else {
                        assert(segs[i] == seq![c]);
                        assert(segs[i][j] == c);
                    }
                }
            }
        }
    }
}

/// Whether `k` is a canonical key sequence: every segment non-empty and
/// free of separator characters.
pub open spec fn key_wellformed(k: Seq<Seq<char>>) -> bool {
    &&& segments_wellformed(k)
    &&& forall|i: int| 0 <= i < k.len() ==> (#[trigger] k[i]).len() > 0
}

/// Law: every derivable key is a well-formed key sequence.
pub proof fn lemma_derived_key_wellformed(path: Seq<char>, root: Seq<char>)
    requires
        spec_key(path, root) is Some,
    ensures
        key_wellformed(spec_key(path, root)->Some_0),
{
    let rest = spec_strip(path, root)->Some_0;
    lemma_segments_wellformed(rest);
}

/// A non-empty run of non-separator characters splits into itself alone.
proof fn lemma_segments_of_run(r: Seq<char>)
    requires
        r.len() > 0,
        forall|j: int| 0 <= j < r.len() ==> !is_sep(#[trigger] r[j]),
    ensures
        spec_segments(r) == seq![r],
    decreases r.len(),
{
    if r.len() == 1 {
        reveal_with_fuel(spec_segments, 2);
        assert(!is_sep(r[0]));
        assert(seq![r.last()] =~= r);
        assert(spec_segments(r) =~= seq![r]);
    } else {
        lemma_segments_of_run(r.drop_last());
        let init = spec_segments(r.drop_last());
        assert(!is_sep(r[r.len() - 2]));
        assert(init.last() == r.drop_last());
        assert(spec_segments(r) == init.update(0, r.drop_last().push(r.last())));
        assert(r.drop_last().push(r.last()) =~= r);
        assert(spec_segments(r) =~= seq![r]);
    }
}

/// Splitting distributes over a separator: text assembled from two
/// parts around a separator splits into the two parts' segments.
proof fn lemma_segments_around_sep(x: Seq<char>, y: Seq<char>)
    ensures
        spec_segments(x + seq!['/'] + y) == spec_segments(x) + spec_segments(y),
    decreases y.len(),
{
    let z = x + seq!['/'] + y;
    if y.len() == 0 {
        assert(z.drop_last() =~= x);
        assert(z.last() == '/');
        assert(spec_segments(z) =~= spec_segments(x) + spec_segments(y));
    } else {
        let y0 = y.drop_last();
        let c = y.last();
        lemma_segments_around_sep(x, y0);
        assert(z.drop_last() =~= x + seq!['/'] + y0);
        assert(z.last() == c);
        if is_sep(c) {
            assert(spec_segments(z) =~= spec_segments(x) + spec_segments(y));
        } else {
            if y0.len() == 0 {
                assert(z[z.len() - 2] == '/');
                assert(seq![c] =~= y);
                lemma_segments_of_run(y);
                assert(spec_segments(z) =~= spec_segments(x) + spec_segments(y));
            } else if is_sep(y0.last()) {
                assert(z[z.len() - 2] == y0.last());
                assert(y[y.len() - 2] == y0.last());
                assert(spec_segments(y) == spec_segments(y0).push(seq![c]));
                assert(spec_segments(z) =~= spec_segments(x) + spec_segments(y));
            } else {
                assert(z[z.len() - 2] == y0.last());
                assert(y[y.len() - 2] == y0.last());
                lemma_segments_wellformed(y0);
                let a = spec_segments(x);
                let b = spec_segments(y0);
                assert(b.len() > 0);
                let ext = (a + b).last().push(c);
                assert((a + b).last() == b.last());
                assert(spec_segments(z) == (a + b).update(a.len() + b.len() - 1, ext));
                assert(spec_segments(y) == b.update(b.len() - 1, b.last().push(c)));
                assert((a + b).update(a.len() + b.len() - 1, ext) =~= a + b.update(
                    b.len() - 1,
                    b.last().push(c),
                ));
            }
        }
    }
}

/// Law: joining and splitting round-trip — a well-formed key sequence
/// joined into a remote key splits back into exactly that sequence, so
/// a remote key determines its key sequence.
pub proof fn lemma_split_of_join(segs: Seq<Seq<char>>)
    requires
        key_wellformed(segs),
    ensures
        spec_segments(spec_join(segs)) == segs,
    decreases segs.len(),
{
    if segs.len() == 0 {
        assert(spec_segments(spec_join(segs)) =~= segs);
    } else if segs.len() == 1 {
        lemma_segments_of_run(segs[0]);
        assert(spec_segments(spec_join(segs)) =~= segs);
    } else {
        let front = segs.drop_last();
        lemma_split_of_join(front);
        lemma_segments_of_run(segs.last());
        lemma_segments_around_sep(spec_join(front), segs.last());
        assert(spec_segments(spec_join(segs)) =~= front + seq![segs.last()]);
        assert(front + seq![segs.last()] =~= segs);
    }
}

/// Law: distinct well-formed key sequences join into distinct remote
/// keys, so deduplication by key sequence and by remote key agree.
pub proof fn lemma_join_injective(a: Seq<Seq<char>>, b: Seq<Seq<char>>)
    requires
        key_wellformed(a),
        key_wellformed(b),
        spec_join(a) == spec_join(b),
    ensures
        a == b,
{
    lemma_split_of_join(a);
    lemma_split_of_join(b);
}

/// `s` with every backslash separator rewritten to the canonical forward
/// slash; other characters are untouched.
pub open spec fn with_forward_slashes(s: Seq<char>) -> Seq<char> {
    s.map_values(|c: char| if c == '\\' { '/' } else { c })
}

/// Law: separator style is irrelevant to key derivation — path text
/// using backslash separators splits into exactly the key sequence of
/// its forward-slash form.
pub proof fn lemma_separator_style_irrelevant(s: Seq<char>)
    ensures
        spec_segments(with_forward_slashes(s)) == spec_segments(s),
    decreases s.len(),
{
    let f = with_forward_slashes(s);
    if s.len() == 0 {
        assert(f =~= Seq::<char>::empty());
    } else {
        lemma_separator_style_irrelevant(s.drop_last());
        assert(f.drop_last() =~= with_forward_slashes(s.drop_last()));
        let init = spec_segments(s.drop_last());
        assert(is_sep(f.last()) == is_sep(s.last()));
        if !is_sep(s.last()) {
            assert(f.last() == s.last());
            if s.len() >= 2 {
                assert(is_sep(f[f.len() - 2]) == is_sep(s[s.len() - 2]));
            }
        }
    }
}

} // verus!
