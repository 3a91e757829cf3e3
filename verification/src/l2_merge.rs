use vstd::prelude::*;

use crate::disk_ptr::{selects_cold, DiskPtr};

verus! {

/// The bytes `start..start + width` of every value, one value after
/// another.
pub open spec fn gather(vals: Seq<Seq<u8>>, start: int, width: int) -> Seq<u8>
    decreases vals.len(),
{
    if vals.len() == 0 {
        Seq::empty()
    } else {
        gather(vals.drop_last(), start, width) + vals.last().subrange(start, start + width)
    }
}

/// Every value holds at least `n` bytes.
pub open spec fn all_at_least(vals: Seq<Seq<u8>>, n: int) -> bool {
    forall|i: int| 0 <= i < vals.len() ==> #[trigger] vals[i].len() >= n
}

/// A chunk of rows in the four-column lineitem layout: not empty, and every
/// value exactly 16 bytes.
pub open spec fn is_lineitem_chunk(vals: Seq<Seq<u8>>) -> bool {
    vals.len() > 0 && forall|i: int| 0 <= i < vals.len() ==> #[trigger] vals[i].len() == 16
}

/// The values, viewed.
pub open spec fn values_view(vals: Seq<Vec<u8>>) -> Seq<Seq<u8>> {
    vals.map_values(|v: Vec<u8>| v@)
}

proof fn lemma_gather_len(vals: Seq<Seq<u8>>, start: int, width: int)
    requires
        0 <= start,
        0 <= width,
        all_at_least(vals, start + width),
    ensures
        gather(vals, start, width).len() == vals.len() * width,
    decreases vals.len(),
{
    if vals.len() > 0 {
        assert(all_at_least(vals.drop_last(), start + width));
        lemma_gather_len(vals.drop_last(), start, width);
        assert(vals.last().len() >= start + width);
        assert((vals.len() - 1) * width + width == vals.len() * width) by (nonlinear_arith);
    }
}

/// Appends the bytes `start..start + width` of every value to `out`.
fn append_gather(out: &mut Vec<u8>, vals: &Vec<Vec<u8>>, start: usize, width: usize)
    requires
        start + width <= usize::MAX,
        all_at_least(values_view(vals@), start + width),
    ensures
        final(out)@ == old(out)@ + gather(values_view(vals@), start as int, width as int),
{
    let ghost vs = values_view(vals@);
    let ghost head = out@;
    let mut i: usize = 0;
    assert(vs.take(0) =~= Seq::<Seq<u8>>::empty());
    while i < vals.len()
        invariant
            i <= vals@.len(),
            vs == values_view(vals@),
            start + width <= usize::MAX,
            all_at_least(vs, start + width),
            out@ == head + gather(vs.take(i as int), start as int, width as int),
        decreases vals@.len() - i,
    {
        let v = &vals[i];
        assert(vs[i as int] == v@);
        assert(v@.len() >= start + width);
        let ghost before = out@;
        let mut j: usize = 0;
        while j < width
            invariant
                j <= width,
                start + width <= v@.len(),
                start + width <= usize::MAX,
                out@ == before + v@.subrange(start as int, start + j),
            decreases width - j,
        {
            out.push(v[start + j]);
            assert(v@.subrange(start as int, start + j + 1) =~= v@.subrange(start as int, start + j).push(v@[start + j]));
            j += 1;
        }
        assert(vs.take(i + 1).drop_last() =~= vs.take(i as int));
        assert(vs.take(i + 1).last() == v@);
        assert(out@ =~= head + gather(vs.take(i + 1), start as int, width as int));
        i += 1;
    }
    assert(vs.take(i as int) =~= vs);
}

/// The column-major form of a chunk of lineitem rows: the four 4-byte
/// fields of every row, field by field, and where each field's block
/// starts.  `None` when the chunk is not in the lineitem layout.
pub fn transpose_lineitem(vals: &Vec<Vec<u8>>) -> (r: Option<(Vec<u8>, Vec<u32>)>)
    requires
        vals@.len() * 16 <= usize::MAX,
    ensures
        match r {
            None => !is_lineitem_chunk(values_view(vals@)),
            Some((blob, offsets)) => {
                let vs = values_view(vals@);
                &&& is_lineitem_chunk(vs)
                &&& blob@ == gather(vs, 0, 4) + gather(vs, 4, 4) + gather(vs, 8, 4) + gather(vs, 12, 4)
                &&& offsets@ == seq![0u32, (4 * vs.len()) as u32, (8 * vs.len()) as u32, (12 * vs.len()) as u32]
            },
        },
{
    let ghost vs = values_view(vals@);
    if vals.len() == 0 {
        return None;
    }
    let mut i: usize = 0;
    while i < vals.len()
        invariant
            i <= vals@.len(),
            vs == values_view(vals@),
            forall|j: int| 0 <= j < i ==> #[trigger] vs[j].len() == 16,
        decreases vals@.len() - i,
    {
        if vals[i].len() != 16 {
            assert(vs[i as int].len() != 16);
            return None;
        }
        i += 1;
    }
    let count = vals.len();
    assert(all_at_least(vs, 16));
    proof {
        lemma_gather_len(vs, 0, 4);
        lemma_gather_len(vs, 4, 4);
        lemma_gather_len(vs, 8, 4);
    }
    let mut blob: Vec<u8> = Vec::new();
    append_gather(&mut blob, vals, 0, 4);
    let off2 = blob.len() as u32;
    append_gather(&mut blob, vals, 4, 4);
    let off3 = blob.len() as u32;
    append_gather(&mut blob, vals, 8, 4);
    let off4 = blob.len() as u32;
    append_gather(&mut blob, vals, 12, 4);
    assert(Seq::<u8>::empty() + gather(vs, 0, 4) =~= gather(vs, 0, 4));
    let mut offsets: Vec<u32> = Vec::new();
    offsets.push(0);
    offsets.push(off2);
    offsets.push(off3);
    offsets.push(off4);
    assert(offsets@ =~= seq![0u32, (4 * vs.len()) as u32, (8 * vs.len()) as u32, (12 * vs.len()) as u32]);
    Some((blob, offsets))
}

proof fn lemma_gather_index(vals: Seq<Seq<u8>>, start: int, width: int, i: int, b: int)
    requires
        0 <= start,
        0 <= b < width,
        0 <= i < vals.len(),
        all_at_least(vals, start + width),
    ensures
        gather(vals, start, width)[i * width + b] == vals[i][start + b],
    decreases vals.len(),
{
    let init = vals.drop_last();
    assert(all_at_least(init, start + width));
    lemma_gather_len(init, start, width);
    assert(vals.last().len() >= start + width);
    if i < vals.len() - 1 {
        lemma_gather_index(init, start, width, i, b);
        assert(i * width + b < init.len() * width) by (nonlinear_arith)
            requires i < init.len(), 0 <= b < width;
        assert(init[i] == vals[i]);
    } else {
        assert(i * width == init.len() * width);
    }
}

/// The column-major form of a lineitem chunk loses nothing: byte `b` of
/// field `f` of row `i` sits at `4 * n * f + 4 * i + b` of the block, where
/// `n` is the number of rows, and the block holds exactly `16 * n` bytes.
pub proof fn lemma_transposed_field(vs: Seq<Seq<u8>>, f: int, i: int, b: int)
    requires
        is_lineitem_chunk(vs),
        0 <= f < 4,
        0 <= i < vs.len(),
        0 <= b < 4,
    ensures
        ({
            let blob = gather(vs, 0, 4) + gather(vs, 4, 4) + gather(vs, 8, 4) + gather(vs, 12, 4);
            &&& blob.len() == 16 * vs.len()
            &&& blob[4 * vs.len() * f + 4 * i + b] == vs[i][4 * f + b]
        }),
{
    assert(all_at_least(vs, 16));
    assert(all_at_least(vs, 8)) by {
        assert forall|j: int| 0 <= j < vs.len() implies #[trigger] vs[j].len() >= 8 by {}
    }
    assert(all_at_least(vs, 12)) by {
        assert forall|j: int| 0 <= j < vs.len() implies #[trigger] vs[j].len() >= 12 by {}
    }
    assert(all_at_least(vs, 4)) by {
        assert forall|j: int| 0 <= j < vs.len() implies #[trigger] vs[j].len() >= 4 by {}
    }
    lemma_gather_len(vs, 0, 4);
    lemma_gather_len(vs, 4, 4);
    lemma_gather_len(vs, 8, 4);
    lemma_gather_len(vs, 12, 4);
    lemma_gather_index(vs, 4 * f, 4, i, b);
    assert(4 * i + b < 4 * vs.len()) by (nonlinear_arith)
        requires i < vs.len(), 0 <= b < 4;
    let n = vs.len() as int;
    let g0 = gather(vs, 0, 4);
    let g1 = gather(vs, 4, 4);
    let g2 = gather(vs, 8, 4);
    let g3 = gather(vs, 12, 4);
    let blob = g0 + g1 + g2 + g3;
    let k = 4 * i + b;
    if f == 0 {
        assert(4 * n * f + k == k);
        assert(blob[k] == g0[k]);
    } else if f == 1 {
        assert(4 * n * f + k == 4 * n + k);
        assert(blob[4 * n + k] == g1[k]);
    } else if f == 2 {
        assert(4 * n * f + k == 8 * n + k);
        assert(blob[8 * n + k] == g2[k]);
    } else {
        assert(4 * n * f + k == 12 * n + k);
        assert(blob[12 * n + k] == g3[k]);
    }
}

/// What pushing a page into the cold log amounts to.
pub enum MergeDecision {
    /// Nothing to do: the page is already cold, or holds no node.
    Skip,
    /// Rewrite the node as it is.
    Rewrite,
    /// Rewrite the node in column-major form: the blob and its block
    /// offsets.
    Transpose(Vec<u8>, Vec<u32>),
}

/// Decides how a page is merged into the cold log: skipped when its first
/// cached pointer is already cold or it holds no node; a leaf whose values
/// are lineitem rows is transposed; any other node is rewritten as is.
pub fn plan_merge_page_to_cold_log(
    first_pointer: Option<DiskPtr>,
    is_node: bool,
    is_index: bool,
    vals: &Vec<Vec<u8>>,
) -> (r: MergeDecision)
    requires
        vals@.len() * 16 <= usize::MAX,
    ensures
        (first_pointer matches Some(p) && p.coordinates() matches Some(l) && selects_cold(l)) || !is_node
            ==> r is Skip,
        !(first_pointer matches Some(p) && p.coordinates() matches Some(l) && selects_cold(l)) && is_node ==> {
            if !is_index && is_lineitem_chunk(values_view(vals@)) {
                r matches MergeDecision::Transpose(blob, offsets) && {
                    let vs = values_view(vals@);
                    &&& blob@ == gather(vs, 0, 4) + gather(vs, 4, 4) + gather(vs, 8, 4) + gather(vs, 12, 4)
                    &&& offsets@ == seq![0u32, (4 * vs.len()) as u32, (8 * vs.len()) as u32, (12 * vs.len()) as u32]
                }
            } else {
                r is Rewrite
            }
        },
{
    if let Some(p) = first_pointer {
        if p.is_cold() {
            return MergeDecision::Skip;
        }
    }
    if !is_node {
        return MergeDecision::Skip;
    }
    if !is_index {
        if let Some((blob, offsets)) = transpose_lineitem(vals) {
            return MergeDecision::Transpose(blob, offsets);
        }
    }
    MergeDecision::Rewrite
}

/// The data block of a columnar leaf: the 4-byte key field of every row,
/// then the 4-byte number field of every row, then the 10-byte text field of
/// every row; with the offsets where the three blocks start.
pub fn new_columnar_data(vals: &Vec<Vec<u8>>) -> (r: (Vec<u8>, (u32, u32, u32)))
    requires
        vals@.len() * 18 <= usize::MAX,
        all_at_least(values_view(vals@), 18),
    ensures
        ({
            let vs = values_view(vals@);
            &&& r.0@ == gather(vs, 0, 4) + gather(vs, 4, 4) + gather(vs, 8, 10)
            &&& r.1 == (0u32, (4 * vs.len()) as u32, (8 * vs.len()) as u32)
        }),
{
    let count = vals.len();
    let mut data: Vec<u8> = Vec::new();
    append_gather(&mut data, vals, 0, 4);
    append_gather(&mut data, vals, 4, 4);
    append_gather(&mut data, vals, 8, 10);
    assert(Seq::<u8>::empty() + gather(values_view(vals@), 0, 4) =~= gather(values_view(vals@), 0, 4));
    let k_start: usize = 0;
    let f_start: usize = count * 4;
    let c_start: usize = count * 4 + count * 4;
    (data, (k_start as u32, f_start as u32, c_start as u32))
}

/// The pages one pass of the background scanner looks at: the `count`
/// pages after `cursor`, wrapping around at `max_pid`.
pub fn scan_window(cursor: u64, max_pid: u64, count: usize) -> (r: Vec<u64>)
    requires
        max_pid > 0,
        cursor < u64::MAX,
    ensures
        r@.len() == count,
        forall|i: int| 0 <= i < count ==> #[trigger] r@[i] == (cursor + i + 1) % (max_pid as int),
{
    let mut out: Vec<u64> = Vec::new();
    let mut c: u64 = (cursor + 1) % max_pid;
    let mut i: usize = 0;
    while i < count
        invariant
            max_pid > 0,
            i <= count,
            out@.len() == i,
            c == (cursor + i + 1) % (max_pid as int),
            forall|j: int| 0 <= j < i ==> #[trigger] out@[j] == (cursor + j + 1) % (max_pid as int),
        decreases count - i,
    {
        out.push(c);
        proof {
            vstd::arithmetic::div_mod::lemma_add_mod_noop(cursor + i + 1, 1, max_pid as int);
            if max_pid > 1 {
                vstd::arithmetic::div_mod::lemma_small_mod(1, max_pid as nat);
            } else {
                assert((cursor + i + 2) % 1 == 0);
            }
        }
        c = (c + 1) % max_pid;
        i += 1;
    }
    out
}

} // verus!
