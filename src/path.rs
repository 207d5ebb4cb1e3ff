//! Lexical path handling on raw bytes, with `/` as the separator.
use vstd::prelude::*;

verus! {

pub const SEP: u8 = 0x2f;

pub const DOT: u8 = 0x2e;

/// A component that survives normalization: not empty, no separator, and
/// neither `.` nor `..`.
pub open spec fn is_name(seg: Seq<u8>) -> bool {
    &&& seg.len() > 0
    &&& !seg.contains(SEP)
    &&& seg != seq![DOT]
    &&& seg != seq![DOT, DOT]
}

/// Applies one component to a stack of names: `..` drops the last name (the
/// root is its own parent), empty and `.` components change nothing.
pub open spec fn push_component(stack: Seq<Seq<u8>>, seg: Seq<u8>) -> Seq<Seq<u8>> {
    if seg.len() == 0 || seg == seq![DOT] {
        stack
    } else if seg == seq![DOT, DOT] {
        if stack.len() > 0 {
            stack.drop_last()
        } else {
            stack
        }
    } else {
        stack.push(seg)
    }
}

/// The names collected from `p` so far, and the component still being read.
pub open spec fn scan(p: Seq<u8>) -> (Seq<Seq<u8>>, Seq<u8>)
    decreases p.len(),
{
    if p.len() == 0 {
        (Seq::empty(), Seq::empty())
    } else {
        let (stack, cur) = scan(p.drop_last());
        if p.last() == SEP {
            (push_component(stack, cur), Seq::empty())
        } else {
            (stack, cur.push(p.last()))
        }
    }
}

/// The names of the normal form of `p`, from the root down.
pub open spec fn names_of(p: Seq<u8>) -> Seq<Seq<u8>> {
    push_component(scan(p).0, scan(p).1)
}

/// `/a/b/c` for the names `a`, `b`, `c`; empty for no names.
pub open spec fn spell(names: Seq<Seq<u8>>) -> Seq<u8>
    decreases names.len(),
{
    if names.len() == 0 {
        Seq::empty()
    } else {
        spell(names.drop_last()) + seq![SEP] + names.last()
    }
}

/// The absolute path of a stack of names; the root for none.
pub open spec fn render(names: Seq<Seq<u8>>) -> Seq<u8> {
    if names.len() == 0 {
        seq![SEP]
    } else {
        spell(names)
    }
}

/// Lexical normal form: always absolute, with `.`, `..` and repeated
/// separators resolved, and no trailing separator.
pub open spec fn normal_form(p: Seq<u8>) -> Seq<u8> {
    render(names_of(p))
}

pub open spec fn is_absolute(p: Seq<u8>) -> bool {
    p.len() > 0 && p[0] == SEP
}

/// `t` read against `base`: an absolute `t` replaces `base`.
pub open spec fn joined(base: Seq<u8>, t: Seq<u8>) -> Seq<u8> {
    if is_absolute(t) {
        t
    } else {
        base + seq![SEP] + t
    }
}

/// The absolute form of `p` for the working directory `cwd`.
pub open spec fn absolute_of(cwd: Seq<u8>, p: Seq<u8>) -> Seq<u8> {
    normal_form(joined(cwd, p))
}

/// The directory that holds `p`, lexically; the root holds itself.
pub open spec fn parent_dir(p: Seq<u8>) -> Seq<u8> {
    normal_form(joined(p, seq![DOT, DOT]))
}

pub open spec fn views(v: Seq<Vec<u8>>) -> Seq<Seq<u8>> {
    v.map_values(|x: Vec<u8>| x@)
}

fn is_dot(seg: &Vec<u8>) -> (r: bool)
    ensures
        r == (seg@ == seq![DOT]),
{
    let r = seg.len() == 1 && seg[0] == DOT;
    proof {
        if seg@.len() == 1 && seg@[0] == DOT {
            assert(seg@ =~= seq![DOT]);
        }
    }
    r
}

fn is_dot_dot(seg: &Vec<u8>) -> (r: bool)
    ensures
        r == (seg@ == seq![DOT, DOT]),
{
    let r = seg.len() == 2 && seg[0] == DOT && seg[1] == DOT;
    proof {
        if seg@.len() == 2 && seg@[0] == DOT && seg@[1] == DOT {
            assert(seg@ =~= seq![DOT, DOT]);
        }
    }
    r
}

fn apply_component(stack: &mut Vec<Vec<u8>>, seg: Vec<u8>)
    ensures
        views(final(stack)@) == push_component(views(old(stack)@), seg@),
{
    if seg.len() == 0 || is_dot(&seg) {
    } else if is_dot_dot(&seg) {
        if stack.len() > 0 {
            stack.pop();
            assert(views(stack@) =~= views(old(stack)@).drop_last());
        }
    } else {
        stack.push(seg);
        assert(views(stack@) =~= views(old(stack)@).push(seg@));
    }
}

/// The names of the normal form of `p`.
fn split_names(p: &Vec<u8>) -> (r: Vec<Vec<u8>>)
    ensures
        views(r@) == names_of(p@),
{
    let mut stack: Vec<Vec<u8>> = Vec::new();
    let mut cur: Vec<u8> = Vec::new();
    let mut i: usize = 0;
    assert(p@.subrange(0, 0) =~= Seq::<u8>::empty());
    assert(views(stack@) =~= Seq::<Seq<u8>>::empty());
    while i < p.len()
        invariant
            i <= p@.len(),
            (views(stack@), cur@) == scan(p@.subrange(0, i as int)),
        decreases p.len() - i,
    {
        let b = p[i];
        assert(p@.subrange(0, i + 1).drop_last() =~= p@.subrange(0, i as int));
        if b == SEP {
            let seg = cur;
            cur = Vec::new();
            apply_component(&mut stack, seg);
            assert(cur@ =~= Seq::<u8>::empty());
        } else {
            cur.push(b);
        }
        i = i + 1;
    }
    assert(p@.subrange(0, p@.len() as int) =~= p@);
    apply_component(&mut stack, cur);
    stack
}

/// Spells a stack of names as an absolute path.
fn render_names(names: &Vec<Vec<u8>>) -> (r: Vec<u8>)
    ensures
        r@ == render(views(names@)),
{
    let mut out: Vec<u8> = Vec::new();
    let mut j: usize = 0;
    assert(views(names@).subrange(0, 0) =~= Seq::<Seq<u8>>::empty());
    while j < names.len()
        invariant
            j <= names@.len(),
            out@ == spell(views(names@).subrange(0, j as int)),
        decreases names.len() - j,
    {
        let ghost before = out@;
        out.push(SEP);
        let seg = &names[j];
        let mut k: usize = 0;
        while k < seg.len()
            invariant
                k <= seg@.len(),
                out@ == before + seq![SEP] + seg@.subrange(0, k as int),
            decreases seg.len() - k,
        {
            out.push(seg[k]);
            assert(seg@.subrange(0, k + 1) =~= seg@.subrange(0, k as int).push(seg@[k as int]));
            assert(out@ =~= before + seq![SEP] + seg@.subrange(0, k + 1));
            k = k + 1;
        }
        assert(seg@.subrange(0, seg@.len() as int) =~= seg@);
        assert(views(names@).subrange(0, j + 1).drop_last() =~= views(names@).subrange(0, j as int));
        j = j + 1;
    }
    assert(views(names@).subrange(0, names@.len() as int) =~= views(names@));
    if names.len() == 0 {
        out.push(SEP);
        assert(out@ =~= seq![SEP]);
    }
    out
}

/// Lexical normal form of `p`.
pub fn normalize(p: &Vec<u8>) -> (r: Vec<u8>)
    ensures
        r@ == normal_form(p@),
{
    let names = split_names(p);
    render_names(&names)
}

/// `t` read against `base`: an absolute `t` replaces `base`.
pub fn join(base: &Vec<u8>, t: &Vec<u8>) -> (r: Vec<u8>)
    ensures
        r@ == joined(base@, t@),
{
    if t.len() > 0 && t[0] == SEP {
        t.clone()
    } else {
        let mut out = base.clone();
        out.push(SEP);
        let mut k: usize = 0;
        while k < t.len()
            invariant
                k <= t@.len(),
                out@ == base@ + seq![SEP] + t@.subrange(0, k as int),
            decreases t.len() - k,
        {
            out.push(t[k]);
            assert(t@.subrange(0, k + 1) =~= t@.subrange(0, k as int).push(t@[k as int]));
            assert(out@ =~= base@ + seq![SEP] + t@.subrange(0, k + 1));
            k = k + 1;
        }
        assert(t@.subrange(0, t@.len() as int) =~= t@);
        out
    }
}

/// The absolute form of `p` for the working directory `cwd`.
pub fn absolute(cwd: &Vec<u8>, p: &Vec<u8>) -> (r: Vec<u8>)
    ensures
        r@ == absolute_of(cwd@, p@),
{
    normalize(&join(cwd, p))
}

/// The directory that holds `p`, lexically.
pub fn parent(p: &Vec<u8>) -> (r: Vec<u8>)
    ensures
        r@ == parent_dir(p@),
{
    let up: Vec<u8> = vec![DOT, DOT];
    assert(up@ =~= seq![DOT, DOT]);
    normalize(&join(p, &up))
}

/// Reading `seg` (no separator in it) only extends the pending component.
proof fn lemma_scan_word(q: Seq<u8>, seg: Seq<u8>)
    requires
        !seg.contains(SEP),
    ensures
        scan(q + seg) == (scan(q).0, scan(q).1 + seg),
    decreases seg.len(),
{
    if seg.len() == 0 {
        assert(q + seg =~= q);
        assert(scan(q).1 + seg =~= scan(q).1);
    } else {
        let s2 = seg.drop_last();
        assert(!s2.contains(SEP)) by {
            if s2.contains(SEP) {
                let i = choose|i: int| 0 <= i < s2.len() && s2[i] == SEP;
                assert(seg[i] == SEP);
            }
        }
        lemma_scan_word(q, s2);
        assert((q + seg).drop_last() =~= q + s2);
        assert(seg.last() != SEP) by {
            assert(seg[seg.len() - 1] == seg.last());
        }
        assert((scan(q).1 + s2).push(seg.last()) =~= scan(q).1 + seg);
    }
}

pub open spec fn all_names(names: Seq<Seq<u8>>) -> bool {
    forall|i: int| 0 <= i < names.len() ==> is_name(#[trigger] names[i])
}

/// Scanning a spelled stack of names gives the names back.
proof fn lemma_scan_spell(names: Seq<Seq<u8>>)
    requires
        all_names(names),
    ensures
        names.len() == 0 ==> scan(spell(names)) == (Seq::<Seq<u8>>::empty(), Seq::<u8>::empty()),
        names.len() > 0 ==> scan(spell(names)) == (names.drop_last(), names.last()),
    decreases names.len(),
{
    if names.len() > 0 {
        let rest = names.drop_last();
        let seg = names.last();
        assert(is_name(names[names.len() - 1]));
        assert(all_names(rest)) by {
            assert forall|i: int| 0 <= i < rest.len() implies is_name(#[trigger] rest[i]) by {
                assert(rest[i] == names[i]);
            }
        }
        lemma_scan_spell(rest);
        let head = spell(rest) + seq![SEP];
        assert(head.drop_last() =~= spell(rest));
        assert(head.last() == SEP);
        if rest.len() > 0 {
            assert(is_name(rest[rest.len() - 1]));
            assert(rest.drop_last().push(rest.last()) =~= rest);
        }
        assert(scan(head) == (rest, Seq::<u8>::empty()));
        lemma_scan_word(head, seg);
        assert(Seq::<u8>::empty() + seg =~= seg);
    }
}

/// The names read from a path are all proper names.
proof fn lemma_scan_names(p: Seq<u8>)
    ensures
        all_names(scan(p).0),
        !scan(p).1.contains(SEP),
        all_names(names_of(p)),
    decreases p.len(),
{
    if p.len() > 0 {
        lemma_scan_names(p.drop_last());
        let (stack, cur) = scan(p.drop_last());
        if p.last() != SEP {
            assert(!cur.push(p.last()).contains(SEP)) by {
                if cur.push(p.last()).contains(SEP) {
                    let i = choose|i: int| 0 <= i < cur.push(p.last()).len() && cur.push(p.last())[i] == SEP;
                    if i < cur.len() {
                        assert(cur[i] == SEP);
                    }
                }
            }
        } else {
            lemma_push_component_names(stack, cur);
            assert(!Seq::<u8>::empty().contains(SEP));
        }
    }
    lemma_push_component_names(scan(p).0, scan(p).1);
}

proof fn lemma_push_component_names(stack: Seq<Seq<u8>>, seg: Seq<u8>)
    requires
        all_names(stack),
        !seg.contains(SEP),
    ensures
        all_names(push_component(stack, seg)),
{
    let r = push_component(stack, seg);
    assert forall|i: int| 0 <= i < r.len() implies is_name(#[trigger] r[i]) by {
        if i < stack.len() {
            assert(r[i] == stack[i]);
        }
    }
}

/// Normalizing twice gives what normalizing once gives.
pub proof fn lemma_normal_form_idempotent(p: Seq<u8>)
    ensures
        normal_form(normal_form(p)) == normal_form(p),
        is_absolute(normal_form(p)),
{
    let names = names_of(p);
    lemma_scan_names(p);
    if names.len() == 0 {
        let root: Seq<u8> = seq![SEP];
        assert(root.drop_last() =~= Seq::<u8>::empty());
        assert(root.last() == SEP);
        assert(scan(root.drop_last()) == (Seq::<Seq<u8>>::empty(), Seq::<u8>::empty()));
        assert(scan(root) == (Seq::<Seq<u8>>::empty(), Seq::<u8>::empty()));
        assert(names_of(seq![SEP]) =~= Seq::<Seq<u8>>::empty());
    } else {
        lemma_scan_spell(names);
        assert(is_name(names[names.len() - 1]));
        assert(names.drop_last().push(names.last()) =~= names);
        assert(names_of(spell(names)) == names);
        lemma_spell_absolute(names);
    }
}

proof fn lemma_spell_absolute(names: Seq<Seq<u8>>)
    requires
        names.len() > 0,
    ensures
        is_absolute(spell(names)),
    decreases names.len(),
{
    let rest = names.drop_last();
    if rest.len() > 0 {
        lemma_spell_absolute(rest);
    }
    assert((spell(rest) + seq![SEP] + names.last())[0] == (spell(rest) + seq![SEP])[0]);
}

/// A path already in normal form is its own absolute form.
pub proof fn lemma_absolute_of_normal(cwd: Seq<u8>, p: Seq<u8>)
    requires
        normal_form(p) == p,
    ensures
        absolute_of(cwd, p) == p,
{
    lemma_normal_form_idempotent(p);
}

} // verus!
