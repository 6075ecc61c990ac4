//! Paths as sequences of segments, and the name that a path below a root
//! gets inside an archive.
//!
//! A path is held as its segments, outermost first. The name of an archive
//! entry is made of the segments below the root, joined with `/` whatever the
//! host's own separator is.

use vstd::prelude::*;
use vstd::string::*;

verus! {

/// `path` is `root` itself or lies below it: the segments of `root` are the
/// first segments of `path`.
pub open spec fn is_under(root: Seq<Seq<char>>, path: Seq<Seq<char>>) -> bool {
    root.len() <= path.len() && path.subrange(0, root.len() as int) == root
}

/// The segments joined with `/`: no separator before the first segment and
/// none after the last.
pub open spec fn joined(segments: Seq<Seq<char>>) -> Seq<char>
    decreases segments.len(),
{
    if segments.len() == 0 {
        Seq::empty()
    } else if segments.len() == 1 {
        segments[0]
    } else {
        joined(segments.drop_last()) + seq!['/'] + segments.last()
    }
}

/// The archive name of `path` seen from `root`: the segments of `path` that
/// follow those of `root`, joined with `/`.
pub open spec fn relative_name(root: Seq<Seq<char>>, path: Seq<Seq<char>>) -> Seq<char> {
    joined(path.skip(root.len() as int))
}

/// The segment does not hold the separator `/`.
pub open spec fn has_no_separator(segment: Seq<char>) -> bool {
    forall|k: int| 0 <= k < segment.len() ==> segment[k] != '/'
}

/// No segment of `segments` holds the separator `/`.
pub open spec fn plain(segments: Seq<Seq<char>>) -> bool {
    forall|i: int| 0 <= i < segments.len() ==> has_no_separator(#[trigger] segments[i])
}

/// Joining goes through concatenation: two paths that both have a segment,
/// put one after the other, join to the two joined paths with one separator
/// in between.
pub proof fn lemma_joined_concat(front: Seq<Seq<char>>, back: Seq<Seq<char>>)
    requires
        front.len() > 0,
        back.len() > 0,
    ensures
        joined(front + back) == joined(front) + seq!['/'] + joined(back),
    decreases back.len(),
{
    let whole = front + back;
    assert(whole.last() == back.last());
    if back.len() == 1 {
        assert(whole.drop_last() =~= front);
        assert(joined(back) == back[0]);
    } else {
        assert(whole.drop_last() =~= front + back.drop_last());
        lemma_joined_concat(front, back.drop_last());
        assert(joined(whole) =~= joined(front) + seq!['/'] + joined(back));
    }
}

/// The name of a path seen from a root goes through the directories in
/// between: below a directory `middle` of the root, the name seen from the
/// root is the name of `middle`, a separator and the name seen from
/// `middle`.
pub proof fn lemma_relative_name_below(
    root: Seq<Seq<char>>,
    middle: Seq<Seq<char>>,
    path: Seq<Seq<char>>,
)
    requires
        middle.len() > root.len(),
        path.len() > middle.len(),
        is_under(root, middle),
        is_under(middle, path),
    ensures
        relative_name(root, path) == relative_name(root, middle) + seq!['/'] + relative_name(
            middle,
            path,
        ),
{
    let front = middle.skip(root.len() as int);
    let back = path.skip(middle.len() as int);
    assert(path.skip(root.len() as int) =~= front + back) by {
        assert(path.subrange(0, middle.len() as int) == middle);
        assert forall|i: int| 0 <= i < front.len() implies path.skip(root.len() as int)[i]
            == front[i] by {
            assert(path.subrange(0, middle.len() as int)[root.len() + i] == middle[root.len() + i]);
        }
    }
    lemma_joined_concat(front, back);
}

/// A joined path of plain segments holds a separator exactly after each
/// segment but the last: the joined path of a single plain segment holds
/// none.
proof fn lemma_joined_last_separator(segments: Seq<Seq<char>>)
    requires
        segments.len() >= 2,
        plain(segments),
    ensures
        joined(segments).len() == joined(segments.drop_last()).len() + 1 + segments.last().len(),
        joined(segments)[joined(segments.drop_last()).len() as int] == '/',
        forall|k: int|
            joined(segments.drop_last()).len() < k < joined(segments).len() ==> joined(
                segments,
            )[k] != '/',
{
    let front = joined(segments.drop_last());
    let last = segments.last();
    assert forall|k: int| front.len() < k < joined(segments).len() implies joined(segments)[k]
        != '/' by {
        assert(joined(segments)[k] == last[k - front.len() - 1]);
        assert(has_no_separator(segments[segments.len() - 1]));
    }
}

/// Joining is one-to-one on paths of plain segments: two such paths that
/// both have a segment and join to the same name are the same path.
pub proof fn lemma_joined_injective(first: Seq<Seq<char>>, second: Seq<Seq<char>>)
    requires
        first.len() > 0,
        second.len() > 0,
        plain(first),
        plain(second),
        joined(first) == joined(second),
    ensures
        first == second,
    decreases first.len(),
{
    let name = joined(first);
    if first.len() == 1 && second.len() == 1 {
        assert(first =~= second);
    } else if first.len() == 1 {
        lemma_joined_last_separator(second);
        let at = joined(second.drop_last()).len() as int;
        assert(has_no_separator(first[0]));
        assert(first[0][at] != '/');
    } else if second.len() == 1 {
        lemma_joined_last_separator(first);
        let at = joined(first.drop_last()).len() as int;
        assert(has_no_separator(second[0]));
        assert(second[0][at] != '/');
    } else {
        lemma_joined_last_separator(first);
        lemma_joined_last_separator(second);
        let cut_first = joined(first.drop_last()).len() as int;
        let cut_second = joined(second.drop_last()).len() as int;
        assert(cut_first == cut_second) by {
            if cut_first < cut_second {
                assert(name[cut_second] == '/');
            } else if cut_second < cut_first {
                assert(name[cut_first] == '/');
            }
        }
        assert(joined(first.drop_last()) =~= name.subrange(0, cut_first));
        assert(joined(second.drop_last()) =~= name.subrange(0, cut_first));
        assert(first.last() =~= name.subrange(cut_first + 1, name.len() as int));
        assert(second.last() =~= name.subrange(cut_first + 1, name.len() as int));
        assert(plain(first.drop_last())) by {
            assert forall|i: int| 0 <= i < first.drop_last().len() implies has_no_separator(
                #[trigger] first.drop_last()[i],
            ) by {
                assert(first.drop_last()[i] == first[i]);
            }
        }
        assert(plain(second.drop_last())) by {
            assert forall|i: int| 0 <= i < second.drop_last().len() implies has_no_separator(
                #[trigger] second.drop_last()[i],
            ) by {
                assert(second.drop_last()[i] == second[i]);
            }
        }
        lemma_joined_injective(first.drop_last(), second.drop_last());
        assert(first =~= first.drop_last().push(first.last()));
        assert(second =~= second.drop_last().push(second.last()));
    }
}

/// Plain segments stay plain when the first of them is left out.
proof fn lemma_plain_skip(segments: Seq<Seq<char>>)
    requires
        plain(segments),
        segments.len() > 0,
    ensures
        plain(segments.skip(1)),
{
    assert forall|i: int| 0 <= i < segments.skip(1).len() implies has_no_separator(
        #[trigger] segments.skip(1)[i],
    ) by {
        assert(segments.skip(1)[i] == segments[i + 1]);
    }
}

/// A joined path of two segments or more is its first segment, a separator
/// and the joined rest.
proof fn lemma_joined_first(segments: Seq<Seq<char>>)
    requires
        segments.len() >= 2,
    ensures
        joined(segments) == segments[0] + seq!['/'] + joined(segments.skip(1)),
{
    let first = seq![segments[0]];
    assert(segments =~= first + segments.skip(1));
    assert(joined(first) == segments[0]);
    lemma_joined_concat(first, segments.skip(1));
}

/// A name that begins with the joined path `front` and a separator is the
/// name of a path that begins with `front`: among paths of plain segments,
/// `front` is a proper prefix of every path that joins to such a name.
pub proof fn lemma_joined_prefix(front: Seq<Seq<char>>, whole: Seq<Seq<char>>, rest: Seq<char>)
    requires
        front.len() > 0,
        whole.len() > 0,
        plain(front),
        plain(whole),
        joined(whole) == joined(front) + seq!['/'] + rest,
    ensures
        front.len() < whole.len(),
        whole.subrange(0, front.len() as int) == front,
    decreases front.len(),
{
    let name = joined(whole);
    assert(has_no_separator(front[0]));
    assert(has_no_separator(whole[0]));
    if whole.len() == 1 {
        assert(name[joined(front).len() as int] == '/');
        assert(whole[0][joined(front).len() as int] == '/');
    } else {
        lemma_joined_first(whole);
        let tail = joined(whole.skip(1));
        let head = if front.len() == 1 {
            rest
        } else {
            joined(front.skip(1)) + seq!['/'] + rest
        };
        if front.len() >= 2 {
            lemma_joined_first(front);
        }
        assert(name =~= front[0] + seq!['/'] + head);
        let cut_front = front[0].len() as int;
        let cut_whole = whole[0].len() as int;
        assert(cut_front == cut_whole) by {
            if cut_front < cut_whole {
                assert(name[cut_front] == '/');
                assert(whole[0][cut_front] == '/');
            } else if cut_whole < cut_front {
                assert(name[cut_whole] == '/');
                assert(front[0][cut_whole] == '/');
            }
        }
        assert(front[0] =~= name.subrange(0, cut_front));
        assert(whole[0] =~= name.subrange(0, cut_front));
        assert(tail =~= name.subrange(cut_front + 1, name.len() as int));
        assert(head =~= name.subrange(cut_front + 1, name.len() as int));
        if front.len() == 1 {
            assert(whole.subrange(0, 1) =~= front);
        } else {
            lemma_plain_skip(front);
            lemma_plain_skip(whole);
            lemma_joined_prefix(front.skip(1), whole.skip(1), rest);
            assert(whole.subrange(0, front.len() as int) =~= front) by {
                assert forall|k: int| 0 <= k < front.len() implies whole[k] == front[k] by {
                    if k > 0 {
                        assert(whole.skip(1).subrange(0, front.len() - 1)[k - 1] == front.skip(
                            1,
                        )[k - 1]);
                    }
                }
            }
        }
    }
}

/// Tells whether `path` is `root` or lies below it.
pub fn is_descendant(root: &Vec<String>, path: &Vec<String>) -> (under: bool)
    ensures
        under == is_under(root.deep_view(), path.deep_view()),
{
    if root.len() > path.len() {
        return false;
    }
    let mut i: usize = 0;
    while i < root.len()
        invariant
            i <= root.len() <= path.len(),
            forall|j: int| 0 <= j < i ==> root[j]@ == path[j]@,
        decreases root.len() - i,
    {
        if root[i] != path[i] {
            proof {
                let prefix = path.deep_view().subrange(0, root.len() as int);
                assert(prefix[i as int] == path[i as int]@);
                assert(root.deep_view()[i as int] == root[i as int]@);
            }
            return false;
        }
        i += 1;
    }
    proof {
        assert(path.deep_view().subrange(0, root.len() as int) =~= root.deep_view());
    }
    true
}

/// Expresses `current` relative to `root`: the segments of `current` below
/// `root`, joined with `/`. The root's own segments are no part of the result,
/// and the result for `root` itself is empty.
pub fn make_relative_path(root: &Vec<String>, current: &Vec<String>) -> (relative: String)
    requires
        is_under(root.deep_view(), current.deep_view()),
    ensures
        relative@ == relative_name(root.deep_view(), current.deep_view()),
{
    let ghost below = current.deep_view().skip(root.len() as int);
    let mut relative = String::new();
    let mut i: usize = root.len();
    while i < current.len()
        invariant
            root.len() <= i <= current.len(),
            below == current.deep_view().skip(root.len() as int),
            relative@ == joined(below.take(i - root.len())),
        decreases current.len() - i,
    {
        let ghost before = below.take(i - root.len());
        let ghost after = below.take(i + 1 - root.len());
        proof {
            assert(after.drop_last() =~= before);
            assert(after.last() == current[i as int]@);
        }
        if i > root.len() {
            proof {
                reveal_strlit("/");
                assert("/"@ =~= seq!['/']);
            }
            relative.append("/");
        } else {
            proof {
                assert(before =~= Seq::<Seq<char>>::empty());
                assert(relative@ =~= Seq::<char>::empty());
                assert(relative@ + current[i as int]@ =~= current[i as int]@);
            }
        }
        relative.append(current[i].as_str());
        i += 1;
    }
    proof {
        assert(below.take(current.len() - root.len()) =~= below);
    }
    relative
}

} // verus!
