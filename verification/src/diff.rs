//! The tree diff / patch generator. It compares a baseline element with an
//! edited element in lock step and emits an ordered, pairwise-disjoint list
//! of byte replacements; applying the list to the baseline's rendered text
//! reproduces the edited element's rendered text exactly.

use crate::tree::{
    bytes_eq, children_of, equiv, equiv_seq, is_node, kind_of, lemma_equiv_reflexive,
    lemma_size_child, render, render_bytes, render_seq, size_of, Element,
};
use vstd::prelude::*;

verus! {

/// One text replacement: the bytes `start..end` of the baseline text are
/// replaced by `text`.
pub struct PatchEntry {
    pub start: usize,
    pub end: usize,
    pub text: Vec<u8>,
}

/// Entries lie within `lo..hi`, are each well-formed, and are pairwise
/// disjoint and sorted ascending by start offset.
pub open spec fn wf_patches(ps: Seq<PatchEntry>, lo: int, hi: int) -> bool {
    &&& forall|i: int|
        0 <= i < ps.len() ==> lo <= #[trigger] ps[i].start <= ps[i].end <= hi
    &&& forall|i: int, j: int|
        #![trigger ps[i], ps[j]]
        0 <= i < j < ps.len() ==> ps[i].end <= ps[j].start
}

/// The text produced from the segment `s[i..j]` by applying the replacements
/// `ps`, which must lie within the segment in ascending order.
pub open spec fn apply_seg(s: Seq<u8>, ps: Seq<PatchEntry>, i: int, j: int) -> Seq<u8>
    decreases ps.len(),
{
    if ps.len() == 0 {
        s.subrange(i, j)
    } else {
        s.subrange(i, ps[0].start as int) + ps[0].text@ + apply_seg(
            s,
            ps.drop_first(),
            ps[0].end as int,
            j,
        )
    }
}

/// The text produced from all of `s` by applying the replacements `ps`.
pub open spec fn applied(s: Seq<u8>, ps: Seq<PatchEntry>) -> Seq<u8> {
    apply_seg(s, ps, 0, s.len() as int)
}

/// Applying a sorted replacement list that splits at `m` applies each half
/// to its own segment.
pub proof fn lemma_apply_seg_split(
    s: Seq<u8>,
    ps1: Seq<PatchEntry>,
    ps2: Seq<PatchEntry>,
    i: int,
    m: int,
    j: int,
)
    requires
        wf_patches(ps1, i, m),
        wf_patches(ps2, m, j),
        0 <= i <= m <= j <= s.len(),
    ensures
        apply_seg(s, ps1 + ps2, i, j) == apply_seg(s, ps1, i, m) + apply_seg(s, ps2, m, j),
    decreases ps1.len(),
{
    if ps1.len() == 0 {
        assert(ps1 + ps2 =~= ps2);
        if ps2.len() == 0 {
            assert(apply_seg(s, ps2, i, j) =~= apply_seg(s, ps1, i, m) + apply_seg(s, ps2, m, j));
        } else {
            let p = ps2[0];
            assert(s.subrange(i, p.start as int) =~= s.subrange(i, m) + s.subrange(
                m,
                p.start as int,
            ));
            assert(apply_seg(s, ps2, i, j) =~= apply_seg(s, ps1, i, m) + apply_seg(s, ps2, m, j));
        }
    } else {
        let p = ps1[0];
        assert(i <= ps1[0].start <= ps1[0].end <= m);
        assert((ps1 + ps2).drop_first() =~= ps1.drop_first() + ps2);
        assert(forall|k: int|
            0 <= k < ps1.len() - 1 ==> ps1.drop_first()[k] == ps1[k + 1]);
        lemma_apply_seg_split(s, ps1.drop_first(), ps2, p.end as int, m, j);
        assert(apply_seg(s, ps1 + ps2, i, j) =~= apply_seg(s, ps1, i, m) + apply_seg(
            s,
            ps2,
            m,
            j,
        ));
    }
}

/// A byte-for-byte copy of `src`.
fn copy_bytes(src: &Vec<u8>) -> (r: Vec<u8>)
    ensures
        r@ == src@,
{
    let mut out: Vec<u8> = Vec::new();
    let n = src.len();
    for i in 0..n
        invariant
            n == src@.len(),
            out@ == src@.subrange(0, i as int),
    {
        out.push(src[i]);
        proof {
            assert(out@ =~= src@.subrange(0, i + 1));
        }
    }
    proof {
        assert(out@ =~= src@);
    }
    out
}

/// True when the two child sequences have equal length and pairwise equal
/// shape (token vs. node) and kind, so the diff may recurse child by child.
pub open spec fn kinds_aligned(cs: Seq<Element>, ds: Seq<Element>) -> bool {
    &&& cs.len() == ds.len()
    &&& forall|i: int|
        0 <= i < cs.len() ==> is_node(#[trigger] cs[i]) == is_node(ds[i]) && kind_of(cs[i])
            == kind_of(ds[i])
}

/// Equivalent sequences are aligned and pairwise equivalent.
proof fn lemma_equiv_seq_elements(cs: Seq<Element>, ds: Seq<Element>, i: int)
    requires
        equiv_seq(cs, ds, i),
        0 <= i,
    ensures
        cs.len() == ds.len(),
        forall|j: int| i <= j < cs.len() ==> equiv(#[trigger] cs[j], ds[j]),
    decreases cs.len() - i,
{
    if i < cs.len() {
        lemma_equiv_seq_elements(cs, ds, i + 1);
    }
}

fn check_aligned(base: &Element, cur: &Element) -> (r: bool)
    requires
        is_node(*base),
        is_node(*cur),
    ensures
        r == kinds_aligned(children_of(*base), children_of(*cur)),
{
    let ghost cs = children_of(*base);
    let ghost ds = children_of(*cur);
    let len1 = base.n_children();
    let len2 = cur.n_children();
    if len1 != len2 {
        return false;
    }
    for i in 0..len1
        invariant
            is_node(*base),
            is_node(*cur),
            cs == children_of(*base),
            ds == children_of(*cur),
            len1 == cs.len(),
            len1 == ds.len(),
            forall|j: int|
                0 <= j < i ==> is_node(#[trigger] cs[j]) == is_node(ds[j]) && kind_of(cs[j])
                    == kind_of(ds[j]),
    {
        let b = base.child(i);
        let c = cur.child(i);
        if b.is_node() != c.is_node() {
            return false;
        }
        if !(b.kind() == c.kind()) {
            return false;
        }
    }
    true
}

/// Walk `base` and `cur` in lock step, appending to `out` the replacements
/// that rewrite `s[off..off + |render(base)|]` — which must equal `base`'s
/// rendering — into `cur`'s rendering.
fn diff_elem(
    base: &Element,
    cur: &Element,
    off: usize,
    out: &mut Vec<PatchEntry>,
    Ghost(s): Ghost<Seq<u8>>,
)
    requires
        off + render(*base).len() <= usize::MAX,
        off + render(*base).len() <= s.len(),
        render(*cur).len() <= usize::MAX,
        s.subrange(off as int, off + render(*base).len()) == render(*base),
    ensures
        final(out)@.len() >= old(out)@.len(),
        final(out)@.subrange(0, old(out)@.len() as int) == old(out)@,
        ({
            let d = final(out)@.skip(old(out)@.len() as int);
            &&& wf_patches(d, off as int, off + render(*base).len())
            &&& apply_seg(s, d, off as int, off + render(*base).len()) == render(*cur)
            &&& (equiv(*base, *cur) ==> final(out)@ == old(out)@)
        }),
    decreases size_of(*base),
{
    let ghost base0 = out@;
    let ghost hi = off + render(*base).len();
    if base.same_ref(cur) {
        proof {
            lemma_equiv_reflexive(*base);
            assert(out@.subrange(0, base0.len() as int) =~= base0);
            assert(out@.skip(base0.len() as int) =~= Seq::<PatchEntry>::empty());
            assert(apply_seg(s, out@.skip(base0.len() as int), off as int, hi) == render(*cur));
        }
        return ;
    }
    let base_is_token = !base.is_node();
    let cur_is_token = !cur.is_node();
    if base_is_token && cur_is_token {
        let bt = base.text_bytes();
        let ct = cur.text_bytes();
        if bytes_eq(bt, ct) {
            proof {
                assert(out@.subrange(0, base0.len() as int) =~= base0);
                assert(out@.skip(base0.len() as int) =~= Seq::<PatchEntry>::empty());
                assert(apply_seg(s, out@.skip(base0.len() as int), off as int, hi) == render(
                    *cur,
                ));
            }
            return ;
        }
        let text = copy_bytes(ct);
        let end = off + bt.len();
        out.push(PatchEntry { start: off, end, text });
        proof {
            let d = out@.skip(base0.len() as int);
            assert(out@.subrange(0, base0.len() as int) =~= base0);
            assert(d =~= seq![out@.last()]);
            assert(d.drop_first() =~= Seq::<PatchEntry>::empty());
            assert(apply_seg(s, d.drop_first(), end as int, hi) =~= Seq::<u8>::empty());
            assert(apply_seg(s, d, off as int, hi) =~= render(*cur));
        }
        return ;
    }
    let aligned = if !base_is_token && !cur_is_token {
        check_aligned(base, cur)
    } else {
        false
    };
    if !aligned {
        // Irreconcilable divergence: one replacement covering the whole of
        // the baseline element's range.
        let base_text = render_bytes(base);
        let cur_text = render_bytes(cur);
        let end = off + base_text.len();
        out.push(PatchEntry { start: off, end, text: cur_text });
        proof {
            let d = out@.skip(base0.len() as int);
            assert(out@.subrange(0, base0.len() as int) =~= base0);
            assert(d =~= seq![out@.last()]);
            assert(d.drop_first() =~= Seq::<PatchEntry>::empty());
            assert(apply_seg(s, d.drop_first(), end as int, hi) =~= Seq::<u8>::empty());
            assert(apply_seg(s, d, off as int, hi) =~= render(*cur));
            if equiv(*base, *cur) {
                match (base, cur) {
                    (Element::Node(n1), Element::Node(n2)) => {
                        lemma_equiv_seq_elements(n1.children@, n2.children@, 0);
                        assert(kinds_aligned(children_of(*base), children_of(*cur)));
                    },
                    _ => {},
                }
                assert(false);
            }
        }
        return ;
    }
    // Aligned nodes: recurse child by child, accumulating offsets.
    let ghost cs = children_of(*base);
    let ghost ds = children_of(*cur);
    let len = base.n_children();
    let mut cur_off = off;
    proof {
        assert(render(*base) == render_seq(cs, 0));
        assert(render(*cur) == render_seq(ds, 0));
        assert(s.subrange(cur_off as int, hi) == render_seq(cs, 0));
    }
    for i in 0..len
        invariant
            is_node(*base),
            is_node(*cur),
            cs == children_of(*base),
            ds == children_of(*cur),
            kinds_aligned(cs, ds),
            len == cs.len(),
            render(*base) == render_seq(cs, 0),
            render(*cur) == render_seq(ds, 0),
            hi == off + render(*base).len(),
            hi <= s.len(),
            hi <= usize::MAX,
            render(*cur).len() <= usize::MAX,
            off <= cur_off,
            cur_off + render_seq(cs, i as int).len() == hi,
            s.subrange(cur_off as int, hi) == render_seq(cs, i as int),
            out@.len() >= base0.len(),
            out@.subrange(0, base0.len() as int) == base0,
            wf_patches(out@.skip(base0.len() as int), off as int, cur_off as int),
            apply_seg(s, out@.skip(base0.len() as int), off as int, cur_off as int)
                + render_seq(ds, i as int) == render(*cur),
            equiv(*base, *cur) ==> out@ == base0,
    {
        let ghost d_prev = out@.skip(base0.len() as int);
        let ghost prev_out = out@;
        let ghost prev_off = cur_off as int;
        proof {
            assert(render_seq(cs, i as int) == render(cs[i as int]) + render_seq(cs, i + 1));
            assert(render_seq(ds, i as int) == render(ds[i as int]) + render_seq(ds, i + 1));
        }
        let bchild = base.child(i);
        let bbytes = render_bytes(bchild);
        let blen = bbytes.len();
        proof {
            assert(s.subrange(cur_off as int, cur_off + blen) =~= s.subrange(
                cur_off as int,
                hi,
            ).subrange(0, blen as int));
            assert(render_seq(cs, i as int).subrange(0, blen as int) =~= render(cs[i as int]));
            lemma_size_child(*base, i as int);
        }
        diff_elem(bchild, cur.child(i), cur_off, out, Ghost(s));
        let ghost d_step = out@.skip(prev_out.len() as int);
        proof {
            assert(out@.subrange(0, base0.len() as int) =~= base0);
            assert(out@.skip(base0.len() as int) =~= d_prev + d_step);
            lemma_apply_seg_split(
                s,
                d_prev,
                d_step,
                off as int,
                prev_off,
                prev_off + blen,
            );
            assert(apply_seg(s, d_prev + d_step, off as int, prev_off + blen) + render_seq(
                ds,
                i + 1,
            ) =~= apply_seg(s, d_prev, off as int, prev_off) + render(ds[i as int]) + render_seq(
                ds,
                i + 1,
            ));
            assert(apply_seg(s, d_prev, off as int, prev_off) + render(ds[i as int]) + render_seq(
                ds,
                i + 1,
            ) =~= apply_seg(s, d_prev, off as int, prev_off) + render_seq(ds, i as int));
            if equiv(*base, *cur) {
                match (base, cur) {
                    (Element::Node(n1), Element::Node(n2)) => {
                        lemma_equiv_seq_elements(n1.children@, n2.children@, 0);
                    },
                    _ => {},
                }
                assert(equiv(cs[i as int], ds[i as int]));
            }
            assert(render_seq(cs, i as int).subrange(
                blen as int,
                render_seq(cs, i as int).len() as int,
            ) =~= render_seq(cs, i + 1));
            assert(s.subrange(cur_off + blen, hi) =~= s.subrange(prev_off, hi).subrange(
                blen as int,
                hi - prev_off,
            ));
            assert(s.subrange(cur_off + blen, hi) =~= render_seq(cs, i + 1));
        }
        cur_off = cur_off + blen;
    }
    proof {
        let d = out@.skip(base0.len() as int);
        assert(render_seq(cs, len as int) =~= Seq::<u8>::empty());
        assert(render_seq(ds, len as int) =~= Seq::<u8>::empty());
        assert(cur_off as int == hi);
        assert(apply_seg(s, d, off as int, hi) + render_seq(ds, len as int) =~= apply_seg(
            s,
            d,
            off as int,
            hi,
        ));
    }
}

/// The ordered, disjoint replacement list that rewrites `base`'s rendered
/// text into `cur`'s rendered text. Structurally equal inputs yield the
/// empty list.
pub fn diff(base: &Element, cur: &Element) -> (r: Vec<PatchEntry>)
    requires
        render(*base).len() <= usize::MAX,
        render(*cur).len() <= usize::MAX,
    ensures
        wf_patches(r@, 0, render(*base).len() as int),
        applied(render(*base), r@) == render(*cur),
        equiv(*base, *cur) ==> r@ =~= Seq::<PatchEntry>::empty(),
{
    let mut out: Vec<PatchEntry> = Vec::new();
    proof {
        assert(render(*base).subrange(0, render(*base).len() as int) =~= render(*base));
    }
    diff_elem(base, cur, 0, &mut out, Ghost(render(*base)));
    proof {
        assert(out@.skip(0) =~= out@);
    }
    out
}

/// Apply a sorted, disjoint replacement list to `base`, producing the
/// patched text.
pub fn apply_patch(base: &Vec<u8>, patch: &Vec<PatchEntry>) -> (r: Vec<u8>)
    requires
        wf_patches(patch@, 0, base@.len() as int),
    ensures
        r@ == applied(base@, patch@),
{
    let n = base.len();
    let mut out: Vec<u8> = Vec::new();
    let mut pos: usize = 0;
    let k_end = patch.len();
    proof {
        assert(patch@.skip(0) =~= patch@);
    }
    for k in 0..k_end
        invariant
            n == base@.len(),
            k_end == patch@.len(),
            wf_patches(patch@, 0, n as int),
            pos <= n,
            k < k_end ==> pos <= patch@[k as int].start,
            out@ + apply_seg(base@, patch@.skip(k as int), pos as int, n as int) == applied(
                base@,
                patch@,
            ),
    {
        let start = patch[k].start;
        let end = patch[k].end;
        let ghost pre = out@;
        proof {
            assert(patch@.skip(k as int)[0] == patch@[k as int]);
            assert(patch@.skip(k as int).drop_first() =~= patch@.skip(k + 1));
        }
        for j in pos..start
            invariant
                n == base@.len(),
                pos <= j <= start <= n,
                out@ == pre + base@.subrange(pos as int, j as int),
        {
            out.push(base[j]);
            proof {
                assert(out@ =~= pre + base@.subrange(pos as int, j + 1));
            }
        }
        let ghost pre2 = out@;
        let text = &patch[k].text;
        let tlen = text.len();
        for j in 0..tlen
            invariant
                tlen == text@.len(),
                out@ == pre2 + text@.subrange(0, j as int),
        {
            out.push(text[j]);
            proof {
                assert(out@ =~= pre2 + text@.subrange(0, j + 1));
            }
        }
        proof {
            assert(out@ =~= pre + (base@.subrange(pos as int, start as int) + patch@[k as int].text@));
            assert(out@ + apply_seg(base@, patch@.skip(k + 1), end as int, n as int) =~= pre
                + apply_seg(base@, patch@.skip(k as int), pos as int, n as int));
            assert(forall|j2: int|
                k + 1 <= j2 < patch@.len() ==> patch@[k as int].end <= #[trigger] patch@[j2].start);
        }
        pos = end;
    }
    proof {
        assert(patch@.skip(k_end as int) =~= Seq::<PatchEntry>::empty());
    }
    let ghost pre3 = out@;
    for j in pos..n
        invariant
            n == base@.len(),
            pos <= j <= n,
            out@ == pre3 + base@.subrange(pos as int, j as int),
    {
        out.push(base[j]);
        proof {
            assert(out@ =~= pre3 + base@.subrange(pos as int, j + 1));
        }
    }
    proof {
        assert(out@ =~= pre3 + base@.subrange(pos as int, n as int));
    }
    out
}

} // verus!
