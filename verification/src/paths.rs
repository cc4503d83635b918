use vstd::prelude::*;

use vstd::string::StrSliceExecFns;
use vstd::string::StringExecFns;

verus! {

/// The character that separates path components.
pub const PATH_SEP: char = '/';

/// One file found under the transfer root: the path components from the
/// root (exclusive) down to the file name, and the file's size in bytes.
#[derive(Debug, Clone)]
pub struct FileEntry {
    pub partial_path: Vec<String>,
    pub size: u64,
}

/// The components of a path string: the maximal non-empty runs of
/// non-separator characters, in order.
pub open spec fn split_components(s: Seq<char>) -> Seq<Seq<char>>
    decreases s.len(),
{
    if s.len() == 0 {
        Seq::empty()
    } else {
        let rest = split_components(s.drop_last());
        let c = s.last();
        if c == PATH_SEP {
            rest
        } else if s.len() >= 2 && s[s.len() - 2] != PATH_SEP && rest.len() > 0 {
            rest.update(rest.len() - 1, rest.last().push(c))
        } else {
            rest.push(seq![c])
        }
    }
}

/// The components joined back into one path string, with a single
/// separator between consecutive components.
pub open spec fn join_path(l: Seq<Seq<char>>) -> Seq<char>
    decreases l.len(),
{
    if l.len() == 0 {
        Seq::empty()
    } else if l.len() == 1 {
        l[0]
    } else {
        join_path(l.drop_last()) + seq![PATH_SEP] + l.last()
    }
}

/// A usable path component: non-empty and free of the separator.
pub open spec fn is_component(c: Seq<char>) -> bool {
    c.len() > 0 && forall|j: int| 0 <= j < c.len() ==> c[j] != PATH_SEP
}

/// Splitting ignores a trailing separator.
proof fn lemma_split_trailing_sep(s: Seq<char>)
    requires
        s.len() > 0,
        s.last() == PATH_SEP,
    ensures
        split_components(s) == split_components(s.drop_last()),
{
}

/// If everything from `start` to the end of `s` is one non-empty run of
/// non-separator characters, splitting `s` yields the components of the
/// part before the run, then the run itself.
proof fn lemma_split_run(s: Seq<char>, start: int)
    requires
        0 <= start < s.len(),
        start == 0 || s[start - 1] == PATH_SEP,
        forall|j: int| start <= j < s.len() ==> s[j] != PATH_SEP,
    ensures
        split_components(s) == split_components(s.take(start)).push(s.skip(start)),
    decreases s.len() - start,
{
    let c = s.last();
    assert(c != PATH_SEP);
    if s.len() == start + 1 {
        assert(s.drop_last() =~= s.take(start));
        if start == 0 {
            assert(split_components(s) =~= split_components(s.take(0)).push(seq![c]));
            assert(s.skip(0) =~= seq![c]);
        } else {
            assert(s[s.len() - 2] == s[start - 1]);
            assert(split_components(s) == split_components(s.drop_last()).push(seq![c]));
            assert(s.skip(start) =~= seq![c]);
        }
    } else {
        lemma_split_run(s.drop_last(), start);
        assert(s.drop_last().take(start) =~= s.take(start));
        let rest = split_components(s.drop_last());
        assert(rest == split_components(s.take(start)).push(s.drop_last().skip(start)));
        assert(rest.len() > 0);
        assert(s[s.len() - 2] != PATH_SEP);
        assert(split_components(s) == rest.update(rest.len() - 1, rest.last().push(c)));
        assert(rest.last() == s.drop_last().skip(start));
        assert(s.drop_last().skip(start).push(c) =~= s.skip(start));
        assert(rest.update(rest.len() - 1, s.skip(start))
            =~= split_components(s.take(start)).push(s.skip(start)));
    }
}

/// Law: splitting only ever yields usable components: each one is
/// non-empty and free of the separator.
pub proof fn lemma_split_yields_components(s: Seq<char>)
    ensures
        forall|k: int|
            0 <= k < split_components(s).len() ==> is_component(
                #[trigger] split_components(s)[k],
            ),
    decreases s.len(),
{
    if s.len() > 0 {
        lemma_split_yields_components(s.drop_last());
        let rest = split_components(s.drop_last());
        let c = s.last();
        let r2 = split_components(s);
        if c == PATH_SEP {
        } else if s.len() >= 2 && s[s.len() - 2] != PATH_SEP && rest.len() > 0 {
            let grown = rest.last().push(c);
            assert(is_component(grown)) by {
                assert(is_component(rest[rest.len() - 1]));
                assert forall|j: int| 0 <= j < grown.len() implies grown[j] != PATH_SEP by {
                    if j < grown.len() - 1 {
                        assert(grown[j] == rest.last()[j]);
                    }
                }
            }
            assert forall|k: int| 0 <= k < r2.len() implies is_component(r2[k]) by {
                if k < rest.len() - 1 {
                    assert(r2[k] == rest[k]);
                } else {
                    assert(r2[k] == grown);
                }
            }
        } else {
            assert(is_component(seq![c])) by {
                assert(seq![c][0] == c);
            }
            assert forall|k: int| 0 <= k < r2.len() implies is_component(r2[k]) by {
                if k < rest.len() {
                    assert(r2[k] == rest[k]);
                } else {
                    assert(r2[k] == seq![c]);
                }
            }
        }
    }
}

/// Law: joining components and splitting the result gives back the
/// components, for every list of non-empty, separator-free components.
pub proof fn lemma_path_round_trip(l: Seq<Seq<char>>)
    requires
        forall|k: int| 0 <= k < l.len() ==> is_component(#[trigger] l[k]),
    ensures
        split_components(join_path(l)) == l,
    decreases l.len(),
{
    if l.len() == 0 {
        assert(split_components(join_path(l)) =~= l);
    } else if l.len() == 1 {
        let s = join_path(l);
        assert(s == l[0]);
        lemma_split_run(s, 0);
        assert(s.take(0) =~= Seq::<char>::empty());
        assert(s.skip(0) =~= s);
        assert(split_components(s) =~= l);
    } else {
        let s = join_path(l);
        let head = join_path(l.drop_last());
        let start = head.len() + 1;
        assert(s == head + seq![PATH_SEP] + l.last());
        assert(l.last().len() > 0);
        assert(s[start - 1] == PATH_SEP);
        assert forall|j: int| start <= j < s.len() implies s[j] != PATH_SEP by {
            assert(s[j] == l.last()[j - start]);
        }
        lemma_split_run(s, start as int);
        assert(s.skip(start as int) =~= l.last());
        let p = s.take(start as int);
        assert(p.last() == PATH_SEP);
        lemma_split_trailing_sep(p);
        assert(p.drop_last() =~= head);
        lemma_path_round_trip(l.drop_last());
        assert(split_components(s) == l.drop_last().push(l.last()));
        assert(l.drop_last().push(l.last()) =~= l);
    }
}

/// Splits a relative path string into its components: the maximal
/// non-empty runs of non-separator characters.
pub fn path_to_list(path: &str) -> (r: Vec<String>)
    ensures
        r.deep_view() == split_components(path@),
{
    let n = path.unicode_len();
    let mut res: Vec<String> = Vec::new();
    let mut start: usize = 0;
    let mut i: usize = 0;
    while i < n
        invariant
            start <= i <= n,
            n == path@.len(),
            start == 0 || path@[start - 1] == PATH_SEP,
            forall|j: int| start <= j < i ==> path@[j] != PATH_SEP,
            res.deep_view() == split_components(path@.take(start as int)),
        decreases n - i,
    {
        let c = path.get_char(i);
        if c == PATH_SEP {
            if start < i {
                let comp = path.substring_char(start, i).to_owned();
                res.push(comp);
                proof {
                    lemma_split_run(path@.take(i as int), start as int);
                    assert(path@.take(i as int).take(start as int) =~= path@.take(start as int));
                    assert(path@.take(i as int).skip(start as int)
                        =~= path@.subrange(start as int, i as int));
                    assert(res.deep_view() =~= split_components(path@.take(i as int)));
                }
            }
            proof {
                let t = path@.take(i + 1);
                assert(t.last() == PATH_SEP);
                lemma_split_trailing_sep(t);
                assert(t.drop_last() =~= path@.take(i as int));
            }
            start = i + 1;
        }
        i += 1;
    }
    if start < n {
        let comp = path.substring_char(start, n).to_owned();
        res.push(comp);
        proof {
            assert(path@.take(n as int) =~= path@);
            lemma_split_run(path@, start as int);
            assert(path@.skip(start as int) =~= path@.subrange(start as int, n as int));
            assert(res.deep_view() =~= split_components(path@));
        }
    } else {
        proof {
            assert(path@.take(start as int) =~= path@);
        }
    }
    res
}

/// Joins path components into one path string with a separator between
/// consecutive components.
pub fn list_to_path(l: &Vec<String>) -> (p: String)
    ensures
        p@ == join_path(l.deep_view()),
{
    let mut p = String::new();
    let mut i: usize = 0;
    while i < l.len()
        invariant
            i <= l@.len(),
            p@ == join_path(l.deep_view().take(i as int)),
        decreases l@.len() - i,
    {
        if i > 0 {
            p.append("/");
            proof {
                reveal_strlit("/");
            }
        }
        p.append(l[i].as_str());
        i += 1;
        proof {
            let lv = l.deep_view();
            assert(lv.take(i as int).drop_last() =~= lv.take(i - 1));
            assert(lv.take(i as int).last() == lv[i - 1]);
            if i >= 2 {
                assert(p@ == join_path(lv.take(i - 1)) + seq![PATH_SEP] + lv[i - 1]);
            } else {
                assert(p@ == lv[0]);
            }
        }
    }
    proof {
        assert(l.deep_view().take(l@.len() as int) =~= l.deep_view());
    }
    p
}

} // verus!
