//! Computing the path that reaches one location from another, over a plain
//! model of path components.
use vstd::prelude::*;

verus! {

/// One piece of a file path: the root, the current or parent directory
/// marker, or a named entry.
#[derive(Debug)]
pub enum Component {
    RootDir,
    CurDir,
    ParentDir,
    Normal(String),
}

/// The model of a component, a named entry carrying its character sequence.
pub ghost enum CompView {
    RootDir,
    CurDir,
    ParentDir,
    Normal(Seq<char>),
}

impl View for Component {
    type V = CompView;

    open spec fn view(&self) -> CompView {
        match self {
            Component::RootDir => CompView::RootDir,
            Component::CurDir => CompView::CurDir,
            Component::ParentDir => CompView::ParentDir,
            Component::Normal(s) => CompView::Normal(s@),
        }
    }
}

impl DeepView for Component {
    type V = CompView;

    open spec fn deep_view(&self) -> CompView {
        self.view()
    }
}

impl PartialEq for Component {
    fn eq(&self, other: &Component) -> (r: bool) {
        match (self, other) {
            (Component::RootDir, Component::RootDir) => true,
            (Component::CurDir, Component::CurDir) => true,
            (Component::ParentDir, Component::ParentDir) => true,
            (Component::Normal(a), Component::Normal(b)) => *a == *b,
            _ => false,
        }
    }
}

impl vstd::std_specs::cmp::PartialEqSpecImpl for Component {
    open spec fn obeys_eq_spec() -> bool {
        true
    }

    open spec fn eq_spec(&self, other: &Component) -> bool {
        self@ == other@
    }
}

/// A path is absolute when it starts at the root.
pub open spec fn spec_is_absolute(p: Seq<CompView>) -> bool {
    p.len() > 0 && p[0] == CompView::RootDir
}

/// A run of `n` parent-directory markers.
pub open spec fn parents(n: int) -> Seq<CompView> {
    Seq::new(n as nat, |i: int| CompView::ParentDir)
}

/// One simultaneous walk down what is left of `p` and `b`, the rules tried
/// in order; `fresh` records that nothing has been emitted yet, which alone
/// permits skipping a shared leading component.
pub open spec fn rel_walk(p: Seq<CompView>, b: Seq<CompView>, fresh: bool) -> Option<
    Seq<CompView>,
>
    decreases p.len() + b.len(),
{
    if p.len() == 0 && b.len() == 0 {
        Some(Seq::empty())
    } else if p.len() > 0 && b.len() == 0 {
        Some(p)
    } else if p.len() == 0 {
        Some(parents(b.len() as int))
    } else if fresh && p[0] == b[0] {
        rel_walk(p.skip(1), b.skip(1), true)
    } else if b[0] == CompView::CurDir {
        match rel_walk(p.skip(1), b.skip(1), false) {
            Some(rest) => Some(seq![p[0]] + rest),
            None => None,
        }
    } else if b[0] == CompView::ParentDir {
        None
    } else {
        Some(parents(b.len() as int) + p)
    }
}

/// The path that reaches `p` from `b`: for mixed absoluteness only an
/// absolute `p` is usable, as it stands; otherwise the common prefix is
/// dropped and what is left of `b` is climbed out of.
pub open spec fn spec_relative(p: Seq<CompView>, b: Seq<CompView>) -> Option<Seq<CompView>> {
    if spec_is_absolute(p) != spec_is_absolute(b) {
        if spec_is_absolute(p) {
            Some(p)
        } else {
            None
        }
    } else {
        rel_walk(p, b, true)
    }
}

/// Whether the path starts at the root.
pub fn is_absolute(p: &Vec<Component>) -> (r: bool)
    ensures
        r == spec_is_absolute(p.deep_view()),
{
    if p.len() == 0 {
        false
    } else {
        match &p[0] {
            Component::RootDir => true,
            _ => false,
        }
    }
}

/// A copy of one component; a named entry keeps its text.
fn clone_component(c: &Component) -> (r: Component)
    ensures
        r@ == c@,
{
    match c {
        Component::RootDir => Component::RootDir,
        Component::CurDir => Component::CurDir,
        Component::ParentDir => Component::ParentDir,
        Component::Normal(s) => Component::Normal(s.clone()),
    }
}

/// Append copies of `src[from..]` to `dst`.
fn extend_from(dst: &mut Vec<Component>, src: &Vec<Component>, from: usize)
    requires
        from <= src@.len(),
    ensures
        final(dst).deep_view() == old(dst).deep_view() + src.deep_view().skip(from as int),
{
    let n = src.len();
    let mut i: usize = from;
    proof {
        assert(dst.deep_view() =~= old(dst).deep_view() + src.deep_view().skip(from as int).take(
            0,
        ));
    }
    while i < n
        invariant
            n == src@.len(),
            from <= i <= n,
            dst.deep_view() =~= old(dst).deep_view() + src.deep_view().skip(from as int).take(
                i - from,
            ),
        decreases n - i,
    {
        let ghost prev = dst.deep_view();
        dst.push(clone_component(&src[i]));
        proof {
            assert(dst.deep_view() =~= prev.push(src.deep_view()[i as int]));
            assert(prev.push(src.deep_view()[i as int]) =~= old(dst).deep_view()
                + src.deep_view().skip(from as int).take(i + 1 - from));
        }
        i = i + 1;
    }
    proof {
        assert(src.deep_view().skip(from as int).take(n - from) =~= src.deep_view().skip(
            from as int,
        ));
    }
}

/// Append `k` parent-directory markers to `dst`.
fn push_parents(dst: &mut Vec<Component>, k: usize)
    ensures
        final(dst).deep_view() == old(dst).deep_view() + parents(k as int),
{
    let mut i: usize = 0;
    proof {
        assert(dst.deep_view() =~= old(dst).deep_view() + parents(0));
    }
    while i < k
        invariant
            i <= k,
            dst.deep_view() =~= old(dst).deep_view() + parents(i as int),
        decreases k - i,
    {
        let ghost prev = dst.deep_view();
        dst.push(Component::ParentDir);
        proof {
            assert(dst.deep_view() =~= prev.push(CompView::ParentDir));
            assert(prev.push(CompView::ParentDir) =~= old(dst).deep_view() + parents(i + 1));
        }
        i = i + 1;
    }
}

/// The relative path from `base` to `path`, by the walk of [`spec_relative`];
/// nothing is computable when `base` is absolute and `path` is not, or when a
/// parent-directory marker inside `base` blocks the climb.
pub fn relative(path: &Vec<Component>, base: &Vec<Component>) -> (r: Option<Vec<Component>>)
    ensures
        match r {
            Some(v) => spec_relative(path.deep_view(), base.deep_view()) == Some(v.deep_view()),
            None => spec_relative(path.deep_view(), base.deep_view()) is None,
        },
{
    let ghost pv = path.deep_view();
    let ghost bv = base.deep_view();
    let pa = is_absolute(path);
    let ba = is_absolute(base);
    if pa != ba {
        if pa {
            let mut out: Vec<Component> = Vec::new();
            extend_from(&mut out, path, 0);
            proof {
                assert(out.deep_view() =~= pv);
            }
            Some(out)
        } else {
            None
        }
    } else {
        let np = path.len();
        let nb = base.len();
        let mut comps: Vec<Component> = Vec::new();
        let mut i: usize = 0;
        proof {
            assert(pv.skip(0) =~= pv);
            assert(bv.skip(0) =~= bv);
            assert(comps.deep_view() =~= Seq::<CompView>::empty());
            assert(rel_walk(pv, bv, true) == spec_relative(pv, bv));
        }
        while i < np || i < nb
            invariant
                pv == path.deep_view(),
                bv == base.deep_view(),
                np == pv.len(),
                nb == bv.len(),
                i <= np,
                i <= nb,
                spec_relative(pv, bv) == match rel_walk(
                    pv.skip(i as int),
                    bv.skip(i as int),
                    comps@.len() == 0,
                ) {
                    Some(rest) => Some(comps.deep_view() + rest),
                    None => None::<Seq<CompView>>,
                },
            decreases np + nb - i - i,
        {
            if i >= nb {
                extend_from(&mut comps, path, i);
                proof {
                    assert(bv.skip(i as int) =~= Seq::<CompView>::empty());
                }
                return Some(comps);
            }
            if i >= np {
                push_parents(&mut comps, nb - i);
                proof {
                    assert(pv.skip(i as int) =~= Seq::<CompView>::empty());
                }
                return Some(comps);
            }
            let fresh = comps.len() == 0;
            if fresh && path[i] == base[i] {
                proof {
                    assert(pv.skip(i as int).skip(1) =~= pv.skip(i as int + 1));
                    assert(bv.skip(i as int).skip(1) =~= bv.skip(i as int + 1));
                    assert(pv.skip(i as int)[0] == pv[i as int]);
                    assert(bv.skip(i as int)[0] == bv[i as int]);
                    assert(comps.deep_view() =~= Seq::<CompView>::empty());
                }
                i = i + 1;
            } else {
                let cur = matches!(&base[i], Component::CurDir);
                let parent = matches!(&base[i], Component::ParentDir);
                proof {
                    assert(pv.skip(i as int)[0] == pv[i as int]);
                    assert(bv.skip(i as int)[0] == bv[i as int]);
                }
                if cur {
                    let ghost prev = comps.deep_view();
                    comps.push(clone_component(&path[i]));
                    proof {
                        assert(comps.deep_view() =~= prev.push(pv[i as int]));
                        assert(pv.skip(i as int).skip(1) =~= pv.skip(i as int + 1));
                        assert(bv.skip(i as int).skip(1) =~= bv.skip(i as int + 1));
                        if let Some(rest) = rel_walk(
                            pv.skip(i as int + 1),
                            bv.skip(i as int + 1),
                            false,
                        ) {
                            assert(prev + (seq![pv[i as int]] + rest) =~= comps.deep_view()
                                + rest);
                        }
                    }
                    i = i + 1;
                } else if parent {
                    return None;
                } else {
                    let ghost prev = comps.deep_view();
                    push_parents(&mut comps, nb - i);
                    extend_from(&mut comps, path, i);
                    proof {
                        assert(comps.deep_view() =~= prev + (parents(nb - i as int) + pv.skip(
                            i as int,
                        )));
                    }
                    return Some(comps);
                }
            }
        }
        proof {
            assert(pv.skip(np as int) =~= Seq::<CompView>::empty());
            assert(bv.skip(nb as int) =~= Seq::<CompView>::empty());
            assert(comps.deep_view() + Seq::<CompView>::empty() =~= comps.deep_view());
        }
        Some(comps)
    }
}

} // verus!
