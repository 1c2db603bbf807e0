//! What holds of a layer's operations as a whole: nothing is waited for before
//! it was announced, and every partial sum is computed and added exactly once.

use vstd::prelude::*;
use crate::config::SWA_WINDOW;
use crate::layer_attention;
use crate::layer_compress;
use crate::layer_ops::{
    CompressorState, DumpPoint, IndexerState, Lane, LayerError, LayerFacts, LayerKnobs, LayerState, MoeKind, Op,
    Signal, Site, TokenState,
};
use crate::layer_plan::MoeSetup;
use crate::layer_plan;

verus! {

/// Every `later` stands behind an `earlier`.
pub open spec fn preceded(ops: Seq<Op>, later: Op, earlier: Op) -> bool {
    forall|j: int|
        0 <= j < ops.len() && #[trigger] ops[j] == later ==> ops.take(j).contains(earlier)
}

/// The operation that announces a signal.
pub open spec fn announcement(signal: Signal) -> Op {
    Op::Record {
        signal,
        lane: match signal {
            Signal::AinReady => Lane::Compute,
            Signal::AinPushed => Lane::Xfer,
            Signal::SelectedReady => Lane::Compute,
            Signal::SelectedPushed => Lane::Xfer,
            Signal::MoeDone => Lane::IgpuCompute,
            Signal::MoeArrived => Lane::IgpuXfer,
            Signal::HcSrcAttn => Lane::Compute,
            Signal::HcCollapseAttn => Lane::Compute,
            Signal::HcMixesAttn => Lane::Hc,
            Signal::HcSrcFfn => Lane::Compute,
            Signal::HcCollapseFfn => Lane::Compute,
            Signal::HcMixesFfn => Lane::Hc,
        },
    }
}

/// Every wait stands behind its announcement.
pub open spec fn settled(ops: Seq<Op>) -> bool {
    forall|j: int|
        0 <= j < ops.len() ==> (#[trigger] ops[j] matches Op::Wait { signal, .. } ==> ops.take(
            j,
        ).contains(announcement(signal)))
}

/// How often an operation is issued.
pub open spec fn times(ops: Seq<Op>, op: Op) -> nat
    decreases ops.len(),
{
    if ops.len() == 0 {
        0
    } else {
        times(ops.drop_last(), op) + if ops.last() == op {
            1nat
        } else {
            0
        }
    }
}

broadcast proof fn lemma_push_contains(ops: Seq<Op>, op: Op, x: Op)
    ensures
        #[trigger] ops.push(op).contains(x) <==> ops.contains(x) || op == x,
{
    if ops.contains(x) {
        let i = choose|i: int| 0 <= i < ops.len() && ops[i] == x;
        assert(ops.push(op)[i] == x);
    }
    if op == x {
        assert(ops.push(op)[ops.len() as int] == x);
    }
}

broadcast proof fn lemma_push_settled(ops: Seq<Op>, op: Op)
    ensures
        #[trigger] settled(ops.push(op)) <==> settled(ops) && (op matches Op::Wait {
            signal,
            ..
        } ==> ops.contains(announcement(signal))),
{
    let more = ops.push(op);
    assert(more.take(ops.len() as int) =~= ops);
    assert forall|j: int| 0 <= j < ops.len() implies #[trigger] more.take(j) == ops.take(j) by {
        assert(more.take(j) =~= ops.take(j));
    }
    if settled(more) {
        assert forall|j: int| 0 <= j < ops.len() implies (#[trigger] ops[j] matches Op::Wait {
            signal,
            ..
        } ==> ops.take(j).contains(announcement(signal))) by {
            assert(more[j] == ops[j]);
            assert(more.take(j) == ops.take(j));
        }
        assert(more[ops.len() as int] == op);
    }
    if settled(ops) && (op matches Op::Wait { signal, .. } ==> ops.contains(
        announcement(signal),
    )) {
        assert forall|j: int| 0 <= j < more.len() implies (#[trigger] more[j] matches Op::Wait {
            signal,
            ..
        } ==> more.take(j).contains(announcement(signal))) by {
            if j < ops.len() {
                assert(more[j] == ops[j]);
                assert(more.take(j) == ops.take(j));
            }
        }
    }
}

broadcast proof fn lemma_push_times(ops: Seq<Op>, op: Op, x: Op)
    ensures
        #[trigger] times(ops.push(op), x) == times(ops, x) + if op == x {
            1nat
        } else {
            0
        },
{
    assert(ops.push(op).drop_last() =~= ops);
}

broadcast proof fn lemma_push_preceded(ops: Seq<Op>, op: Op, later: Op, earlier: Op)
    ensures
        #[trigger] preceded(ops.push(op), later, earlier) <==> preceded(ops, later, earlier) && (op
            == later ==> ops.contains(earlier)),
{
    let more = ops.push(op);
    assert(more.take(ops.len() as int) =~= ops);
    if preceded(more, later, earlier) {
        assert forall|j: int| 0 <= j < ops.len() && #[trigger] ops[j] == later implies ops.take(
            j,
        ).contains(earlier) by {
            assert(more[j] == later);
            assert(more.take(j) =~= ops.take(j));
        }
        if op == later {
            assert(more[ops.len() as int] == later);
        }
    }
    if preceded(ops, later, earlier) && (op == later ==> ops.contains(earlier)) {
        assert forall|j: int| 0 <= j < more.len() && #[trigger] more[j] == later implies more.take(
            j,
        ).contains(earlier) by {
            if j < ops.len() {
                assert(ops[j] == later);
                assert(more.take(j) =~= ops.take(j));
            }
        }
    }
}

/// The operations up to the end of a layer whose parts all went through. `ahead`
/// is what was issued for it before the token.
pub open spec fn layer_ops_of(
    k: LayerKnobs,
    f: LayerFacts,
    pos: u32,
    s: LayerState,
    t: TokenState,
    m: MoeSetup,
    remote: bool,
    cap: u32,
    partial: Option<usize>,
) -> Seq<Op> {
    let ahead = if m.preissued {
        layer_plan::ahead_ops(t.seq)
    } else {
        Seq::empty()
    };
    let ops = ahead + layer_plan::first_part(k, f, pos, s, t).ops;
    let ops = ops + layer_plan::moe_ops(Seq::empty(), k, f, m);
    let ops = if m.paged && !m.preissued {
        ops + layer_plan::pick_ops(Seq::empty(), k, f, m, remote, cap)
    } else {
        ops
    };
    let ops = ops + layer_plan::arrive_ops(Seq::empty(), k, partial is Some);
    ops + layer_plan::finish_ops(Seq::empty(), k, f, partial)
}

/// An operation that neither announces nor awaits, and that is none of those
/// that the laws count.
spec fn plain(op: Op) -> bool {
    match op {
        Op::Record { .. } => false,
        Op::Wait { .. } => false,
        Op::SharedExpert => false,
        Op::HotMoe => false,
        Op::AddShared => false,
        Op::AddHot => false,
        Op::AddRemote => false,
        Op::Submit => false,
        Op::PushMoe => false,
        Op::RoutedMoe { .. } => false,
        Op::AwaitRemote => false,
        Op::RaiseMoeSignal { .. } => false,
        _ => true,
    }
}

/// `b` is `a` with plain operations behind it.
spec fn extends_plainly(a: Seq<Op>, b: Seq<Op>) -> bool {
    &&& a.len() <= b.len()
    &&& b.take(a.len() as int) == a
    &&& forall|j: int| a.len() <= j < b.len() ==> plain(#[trigger] b[j])
}

broadcast proof fn lemma_push_plain(a: Seq<Op>, b: Seq<Op>, op: Op)
    requires
        extends_plainly(a, b),
        plain(op),
    ensures
        #[trigger] extends_plainly(a, b.push(op)),
{
    assert(b.push(op).take(a.len() as int) =~= b.take(a.len() as int));
}

/// Plain operations keep what holds of the ones in front of them.
proof fn lemma_plain(a: Seq<Op>, b: Seq<Op>)
    requires
        extends_plainly(a, b),
    ensures
        settled(a) ==> settled(b),
        forall|x: Op| #[trigger] a.contains(x) ==> b.contains(x),
        forall|x: Op| !plain(x) ==> #[trigger] times(b, x) == times(a, x),
    decreases b.len(),
{
    broadcast use {lemma_push_settled, lemma_push_contains, lemma_push_times};

    if a.len() == b.len() {
        assert(a =~= b);
    } else {
        let c = b.drop_last();
        assert(c.take(a.len() as int) =~= b.take(a.len() as int));
        assert forall|j: int| a.len() <= j < c.len() implies plain(#[trigger] c[j]) by {
            assert(c[j] == b[j]);
        }
        lemma_plain(a, c);
        assert(b =~= c.push(b.last()));
        assert(plain(b[b.len() - 1]));
    }
}

proof fn lemma_same_extends(a: Seq<Op>)
    ensures
        extends_plainly(a, a),
{
    assert(a.take(a.len() as int) =~= a);
}

proof fn lemma_compressor_plain(
    ops: Seq<Op>,
    k: LayerKnobs,
    f: LayerFacts,
    pos: u32,
    c: Option<CompressorState>,
)
    ensures
        extends_plainly(ops, layer_compress::compressor_ops(ops, k, f, pos, c)),
{
    broadcast use lemma_push_plain;

    lemma_same_extends(ops);
}

proof fn lemma_indexer_compressor_plain(ops: Seq<Op>, f: LayerFacts, pos: u32, i: Option<IndexerState>)
    ensures
        extends_plainly(ops, layer_compress::indexer_compressor_ops(ops, f, pos, i)),
{
    broadcast use lemma_push_plain;

    lemma_same_extends(ops);
}

proof fn lemma_attention_plain(
    ops: Seq<Op>,
    k: LayerKnobs,
    f: LayerFacts,
    pos: u32,
    s: LayerState,
    t: TokenState,
)
    ensures
        extends_plainly(ops, layer_attention::attention_ops(ops, k, f, pos, s, t)),
{
    broadcast use lemma_push_plain;

    lemma_same_extends(ops);
}

proof fn lemma_project_plain(ops: Seq<Op>, k: LayerKnobs, pos: u32, slot: u32)
    ensures
        extends_plainly(ops, layer_plan::project_ops(ops, k, pos, slot)),
{
    broadcast use lemma_push_plain;

    lemma_same_extends(ops);
}

proof fn lemma_router_plain(ops: Seq<Op>, k: LayerKnobs, f: LayerFacts)
    ensures
        extends_plainly(ops, layer_plan::router_ops(ops, k, f)),
{
    broadcast use lemma_push_plain;

    lemma_same_extends(ops);
}

/// An operation that the laws count.
spec fn counted(op: Op) -> bool {
    !plain(op) && !(op is Record) && !(op is Wait)
}

/// Nothing that the laws count was issued.
spec fn uncounted(ops: Seq<Op>) -> bool {
    forall|x: Op| counted(x) ==> #[trigger] times(ops, x) == 0
}

proof fn lemma_mix(ops: Seq<Op>, k: LayerKnobs, site: Site)
    ensures
        settled(ops) ==> settled(layer_plan::mix_ops(ops, k, site)),
        forall|x: Op|
            #[trigger] ops.contains(x) ==> layer_plan::mix_ops(ops, k, site).contains(x),
        k.mhc_split ==> layer_plan::mix_ops(ops, k, site).contains(
            announcement(layer_plan::mixes_signal(site)),
        ),
        uncounted(ops) ==> uncounted(layer_plan::mix_ops(ops, k, site)),
{
    broadcast use {lemma_push_settled, lemma_push_contains, lemma_push_times};

}

proof fn lemma_begin(k: LayerKnobs, f: LayerFacts, t: TokenState)
    requires
        layer_plan::begin_stop(f, t) is None,
    ensures
        settled(layer_plan::begin_ops(Seq::empty(), k, f, t)),
        uncounted(layer_plan::begin_ops(Seq::empty(), k, f, t)),
        k.mhc_split && layer_plan::opens(k, f) ==> layer_plan::begin_ops(
            Seq::empty(),
            k,
            f,
            t,
        ).contains(announcement(Signal::HcMixesAttn)),
{
    broadcast use {lemma_push_settled, lemma_push_contains, lemma_push_times};

    let start = crate::layer_ops::push_if(
        crate::layer_ops::push_if(Seq::empty(), k.v41 && f.layer == 0, Op::ResetMixCarry),
        f.engram,
        Op::Engram,
    );
    assert(settled(Seq::<Op>::empty()));
    assert(uncounted(Seq::<Op>::empty()));
    assert(settled(start));
    assert(uncounted(start));
    lemma_mix(start, k, Site::Attn);
}

proof fn lemma_output(ops: Seq<Op>, k: LayerKnobs, pos: u32)
    requires
        settled(ops),
        uncounted(ops),
        k.mhc_split ==> ops.contains(announcement(Signal::HcMixesAttn)),
    ensures
        settled(layer_plan::output_ops(ops, k, pos)),
        uncounted(layer_plan::output_ops(ops, k, pos)),
{
    broadcast use {lemma_push_settled, lemma_push_contains, lemma_push_times};

    let a = layer_plan::dump_ops(ops.push(Op::OutRope { pos }), k, DumpPoint::Heads);
    assert(settled(a) && uncounted(a));
    let b = layer_plan::dump_ops(a.push(Op::OutProject), k, DumpPoint::AttnOut);
    assert(settled(b) && uncounted(b));
    assert(forall|x: Op| #[trigger] ops.contains(x) ==> b.contains(x));
    let c = crate::layer_ops::push_if(
        b,
        k.mhc_split,
        Op::Wait { signal: Signal::HcMixesAttn, lane: Lane::Compute },
    ).push(Op::MhcPostAttn);
    assert(settled(c) && uncounted(c));
    lemma_mix(c, k, Site::Ffn);
}

proof fn lemma_select(ops: Seq<Op>, k: LayerKnobs, seq: u32)
    requires
        settled(ops),
        uncounted(ops),
    ensures
        settled(layer_plan::select_ops(ops, k, seq)),
        uncounted_but_raised(layer_plan::select_ops(ops, k, seq)),
        k.parallel ==> layer_plan::select_ops(ops, k, seq).contains(
            announcement(Signal::SelectedPushed),
        ),
        picks_raised(layer_plan::select_ops(ops, k, seq), k, seq),
{
    assert(settled(layer_plan::select_ops(ops, k, seq)) && uncounted_but_raised(
        layer_plan::select_ops(ops, k, seq),
    )) by {
        broadcast use {lemma_push_settled, lemma_push_contains, lemma_push_times};

    }
    broadcast use {lemma_push_contains, lemma_push_preceded};

    lemma_never_preceded(ops, Op::RaiseMoeSignal { seq }, Op::PushSelected);
}

/// The picks are handed over, and where the devices run side by side the layer's
/// signal is raised to `seq` behind that.
pub open spec fn picks_raised(ops: Seq<Op>, k: LayerKnobs, seq: u32) -> bool {
    &&& ops.contains(Op::PushSelected)
    &&& k.parallel ==> ops.contains(Op::RaiseMoeSignal { seq })
    &&& preceded(ops, Op::RaiseMoeSignal { seq }, Op::PushSelected)
}

/// Nothing that the laws count was issued, but for the layer's signal.
spec fn uncounted_but_raised(ops: Seq<Op>) -> bool {
    forall|x: Op| counted(x) && !(x is RaiseMoeSignal) ==> #[trigger] times(ops, x) == 0
}

proof fn lemma_first_part(k: LayerKnobs, f: LayerFacts, pos: u32, s: LayerState, t: TokenState)
    requires
        layer_plan::first_part(k, f, pos, s, t).stop is None,
        k.mhc_split ==> layer_plan::opens(k, f),
    ensures
        settled(layer_plan::first_part(k, f, pos, s, t).ops),
        uncounted_but_raised(layer_plan::first_part(k, f, pos, s, t).ops),
        k.parallel ==> layer_plan::first_part(k, f, pos, s, t).ops.contains(
            announcement(Signal::SelectedPushed),
        ),
        picks_raised(layer_plan::first_part(k, f, pos, s, t).ops, k, t.seq),
{
    let begun = layer_plan::begun(k, f, pos, s, t);
    let compressed = layer_plan::compressed(begun, k, f, pos);
    let indexed = layer_plan::indexed(compressed, f, pos);
    let attended = layer_plan::attended(indexed, k, f, pos);
    let head = layer_plan::begin_ops(Seq::empty(), k, f, t);
    let slot = s.window.next_slot() as u32;
    lemma_begin(k, f, t);
    lemma_project_plain(head, k, pos, slot);
    let projected = layer_plan::project_ops(head, k, pos, slot);
    assert(extends_plainly(head, begun.ops)) by {
        broadcast use lemma_push_plain;

    }
    lemma_plain(head, begun.ops);
    lemma_compressor_plain(begun.ops, k, f, pos, begun.state.compressor);
    lemma_plain(begun.ops, compressed.ops);
    lemma_indexer_compressor_plain(compressed.ops, f, pos, compressed.state.indexer);
    lemma_plain(compressed.ops, indexed.ops);
    lemma_attention_plain(indexed.ops, k, f, pos, indexed.state, indexed.token);
    lemma_plain(indexed.ops, attended.ops);
    lemma_output(attended.ops, k, pos);
    let out = layer_plan::output_ops(attended.ops, k, pos);
    lemma_router_plain(out, k, f);
    lemma_plain(out, layer_plan::router_ops(out, k, f));
    assert(attended.token.seq == t.seq);
    lemma_select(layer_plan::router_ops(out, k, f), k, t.seq);
}

broadcast proof fn lemma_push_behind(a: Seq<Op>, b: Seq<Op>, op: Op)
    ensures
        #[trigger] (a + b).push(op) == a + b.push(op),
{
    assert((a + b).push(op) =~= a + b.push(op));
}

proof fn lemma_moe_behind(ops: Seq<Op>, k: LayerKnobs, f: LayerFacts, m: MoeSetup)
    ensures
        layer_plan::moe_ops(ops, k, f, m) == ops + layer_plan::moe_ops(Seq::empty(), k, f, m),
{
    broadcast use lemma_push_behind;

    assert(ops + Seq::<Op>::empty() =~= ops);
}

proof fn lemma_picks_behind(
    ops: Seq<Op>,
    k: LayerKnobs,
    f: LayerFacts,
    m: MoeSetup,
    remote: bool,
    cap: u32,
)
    ensures
        layer_plan::pick_ops(ops, k, f, m, remote, cap) == ops + layer_plan::pick_ops(
            Seq::empty(),
            k,
            f,
            m,
            remote,
            cap,
        ),
{
    broadcast use lemma_push_behind;

    assert(ops + Seq::<Op>::empty() =~= ops);
}

proof fn lemma_arrive_behind(ops: Seq<Op>, k: LayerKnobs, pending: bool)
    ensures
        layer_plan::arrive_ops(ops, k, pending) == ops + layer_plan::arrive_ops(
            Seq::empty(),
            k,
            pending,
        ),
{
    broadcast use lemma_push_behind;

    assert(ops + Seq::<Op>::empty() =~= ops);
}

proof fn lemma_finish_behind(ops: Seq<Op>, k: LayerKnobs, f: LayerFacts, partial: Option<usize>)
    ensures
        layer_plan::finish_ops(ops, k, f, partial) == ops + layer_plan::finish_ops(
            Seq::empty(),
            k,
            f,
            partial,
        ),
{
    broadcast use lemma_push_behind;

    assert(ops + Seq::<Op>::empty() =~= ops);
}

/// What a layer's operations are behind the first part.
spec fn behind_first(
    ops: Seq<Op>,
    k: LayerKnobs,
    f: LayerFacts,
    m: MoeSetup,
    remote: bool,
    cap: u32,
    partial: Option<usize>,
) -> Seq<Op> {
    let ops = layer_plan::moe_ops(ops, k, f, m);
    let ops = if m.paged && !m.preissued {
        layer_plan::pick_ops(ops, k, f, m, remote, cap)
    } else {
        ops
    };
    layer_plan::finish_ops(layer_plan::arrive_ops(ops, k, partial is Some), k, f, partial)
}

proof fn lemma_parts(
    k: LayerKnobs,
    f: LayerFacts,
    pos: u32,
    s: LayerState,
    t: TokenState,
    m: MoeSetup,
    remote: bool,
    cap: u32,
    partial: Option<usize>,
)
    ensures
        layer_ops_of(k, f, pos, s, t, m, remote, cap, partial) == behind_first(
            before_moe(k, f, pos, s, t, m),
            k,
            f,
            m,
            remote,
            cap,
            partial,
        ),
{
    let a = before_moe(k, f, pos, s, t, m);
    lemma_moe_behind(a, k, f, m);
    let b = layer_plan::moe_ops(a, k, f, m);
    lemma_picks_behind(b, k, f, m, remote, cap);
    let c = if m.paged && !m.preissued {
        layer_plan::pick_ops(b, k, f, m, remote, cap)
    } else {
        b
    };
    lemma_arrive_behind(c, k, partial is Some);
    lemma_finish_behind(layer_plan::arrive_ops(c, k, partial is Some), k, f, partial);
}

/// What is issued before the second part: what was issued ahead of the token, and
/// the first part.
spec fn before_moe(
    k: LayerKnobs,
    f: LayerFacts,
    pos: u32,
    s: LayerState,
    t: TokenState,
    m: MoeSetup,
) -> Seq<Op> {
    (if m.preissued {
        layer_plan::ahead_ops(t.seq)
    } else {
        Seq::empty()
    }) + layer_plan::first_part(k, f, pos, s, t).ops
}

proof fn lemma_joined(a: Seq<Op>, b: Seq<Op>)
    ensures
        settled(a) && settled(b) ==> settled(a + b),
        forall|x: Op| #[trigger] a.contains(x) ==> (a + b).contains(x),
        forall|x: Op| #[trigger] b.contains(x) ==> (a + b).contains(x),
        forall|x: Op| #[trigger] times(a + b, x) == times(a, x) + times(b, x),
    decreases b.len(),
{
    broadcast use {lemma_push_settled, lemma_push_contains, lemma_push_times};

    if b.len() == 0 {
        assert(a + b =~= a);
    } else {
        let c = b.drop_last();
        lemma_joined(a, c);
        assert(b =~= c.push(b.last()));
        assert(a + b =~= (a + c).push(b.last()));
        assert forall|x: Op| #[trigger] a.contains(x) implies (a + b).contains(x) by {
            assert((a + c).contains(x));
        }
        assert forall|x: Op| #[trigger] b.contains(x) implies (a + b).contains(x) by {
            if c.contains(x) {
                assert((a + c).contains(x));
            }
        }
        assert forall|x: Op| #[trigger] times(a + b, x) == times(a, x) + times(b, x) by {
            assert(times(a + c, x) == times(a, x) + times(c, x));
        }
    }
}

/// What was issued ahead of the token, with a first part behind it.
proof fn lemma_ahead(ahead: Seq<Op>, first: Seq<Op>, preissued: bool, seq: u32)
    requires
        ahead == (if preissued {
            layer_plan::ahead_ops(seq)
        } else {
            Seq::empty()
        }),
        settled(first),
        uncounted_but_raised(first),
    ensures
        settled(ahead + first),
        forall|x: Op| #[trigger] first.contains(x) ==> (ahead + first).contains(x),
        preissued ==> (ahead + first).contains(announcement(Signal::MoeArrived)),
        forall|x: Op|
            counted(x) && !(x is RoutedMoe) && !(x is RaiseMoeSignal) ==> #[trigger] times(ahead + first, x) == one_if(
                preissued && x == Op::PushMoe,
            ),
{
    broadcast use {lemma_push_settled, lemma_push_contains, lemma_push_times};

    lemma_joined(ahead, first);
    assert(settled(Seq::<Op>::empty()));
    assert(settled(ahead));
    assert(preissued ==> ahead.contains(announcement(Signal::MoeArrived)));
    assert forall|x: Op| counted(x) && !(x is RoutedMoe) && !(x is RaiseMoeSignal) implies #[trigger] times(ahead + first, x)
        == one_if(preissued && x == Op::PushMoe) by {
        assert(times(first, x) == 0);
    }
}

/// The operations in front of the second part, as the laws count them.
proof fn lemma_before_moe(
    k: LayerKnobs,
    f: LayerFacts,
    pos: u32,
    s: LayerState,
    t: TokenState,
    m: MoeSetup,
)
    requires
        layer_plan::first_part(k, f, pos, s, t).stop is None,
        k.mhc_split ==> layer_plan::opens(k, f),
    ensures
        settled(before_moe(k, f, pos, s, t, m)),
        k.parallel ==> before_moe(k, f, pos, s, t, m).contains(
            announcement(Signal::SelectedPushed),
        ),
        m.preissued ==> before_moe(k, f, pos, s, t, m).contains(announcement(Signal::MoeArrived)),
        times(before_moe(k, f, pos, s, t, m), Op::SharedExpert) == 0,
        times(before_moe(k, f, pos, s, t, m), Op::AddShared) == 0,
        times(before_moe(k, f, pos, s, t, m), Op::HotMoe) == 0,
        times(before_moe(k, f, pos, s, t, m), Op::AddHot) == 0,
        times(before_moe(k, f, pos, s, t, m), Op::AddRemote) == 0,
        times(before_moe(k, f, pos, s, t, m), Op::AwaitRemote) == 0,
        times(before_moe(k, f, pos, s, t, m), Op::Submit) == 0,
        times(before_moe(k, f, pos, s, t, m), Op::PushMoe) == if m.preissued {
            1nat
        } else {
            0
        },
{
    let first = layer_plan::first_part(k, f, pos, s, t).ops;
    lemma_first_part(k, f, pos, s, t);
    let ahead = if m.preissued {
        layer_plan::ahead_ops(t.seq)
    } else {
        Seq::empty()
    };
    lemma_ahead(ahead, first, m.preissued, t.seq);
    assert(before_moe(k, f, pos, s, t, m) == ahead + first);
}

/// Every wait of a layer stands behind the announcement that it waits for, so
/// none of them is issued in vain. A mix on a lane of its own is awaited by the
/// layer that computes it.
pub proof fn every_wait_follows_its_announcement(
    k: LayerKnobs,
    f: LayerFacts,
    pos: u32,
    s: LayerState,
    t: TokenState,
    m: MoeSetup,
    remote: bool,
    cap: u32,
    partial: Option<usize>,
)
    requires
        layer_plan::first_part(k, f, pos, s, t).stop is None,
        layer_plan::moe_stop(f, m) is None,
        k.mhc_split ==> layer_plan::opens(k, f),
    ensures
        settled(layer_ops_of(k, f, pos, s, t, m, remote, cap, partial)),
{
    lemma_parts(k, f, pos, s, t, m, remote, cap, partial);
    lemma_before_moe(k, f, pos, s, t, m);
    lemma_tail_settled(before_moe(k, f, pos, s, t, m), k, f, m, remote, cap, partial);
}

/// The waits behind the first part follow their announcements.
proof fn lemma_tail_settled(
    a: Seq<Op>,
    k: LayerKnobs,
    f: LayerFacts,
    m: MoeSetup,
    remote: bool,
    cap: u32,
    partial: Option<usize>,
)
    requires
        layer_plan::moe_stop(f, m) is None,
        settled(a),
        k.parallel ==> a.contains(announcement(Signal::SelectedPushed)),
        m.preissued ==> a.contains(announcement(Signal::MoeArrived)),
    ensures
        settled(behind_first(a, k, f, m, remote, cap, partial)),
{
    lemma_moe_settled(a, k, f, m);
    let b = layer_plan::moe_ops(a, k, f, m);
    lemma_picks_settled(b, k, f, m, remote, cap);
    let c = if m.paged && !m.preissued {
        layer_plan::pick_ops(b, k, f, m, remote, cap)
    } else {
        b
    };
    lemma_end_settled(c, k, f, partial);
}

proof fn lemma_moe_settled(a: Seq<Op>, k: LayerKnobs, f: LayerFacts, m: MoeSetup)
    requires
        layer_plan::moe_stop(f, m) is None,
        settled(a),
        k.parallel ==> a.contains(announcement(Signal::SelectedPushed)),
        m.preissued ==> a.contains(announcement(Signal::MoeArrived)),
    ensures
        settled(layer_plan::moe_ops(a, k, f, m)),
        k.parallel && !(m.paged && !m.preissued) ==> layer_plan::moe_ops(a, k, f, m).contains(
            announcement(Signal::MoeArrived),
        ),
{
    broadcast use {lemma_push_settled, lemma_push_contains};

}

proof fn lemma_picks_settled(
    b: Seq<Op>,
    k: LayerKnobs,
    f: LayerFacts,
    m: MoeSetup,
    remote: bool,
    cap: u32,
)
    requires
        settled(b),
    ensures
        settled(layer_plan::pick_ops(b, k, f, m, remote, cap)),
        k.parallel ==> layer_plan::pick_ops(b, k, f, m, remote, cap).contains(
            announcement(Signal::MoeArrived),
        ),
{
    broadcast use {lemma_push_settled, lemma_push_contains};

}

proof fn lemma_end_settled(c: Seq<Op>, k: LayerKnobs, f: LayerFacts, partial: Option<usize>)
    requires
        settled(c),
        k.parallel ==> c.contains(announcement(Signal::MoeArrived)),
    ensures
        settled(
            layer_plan::finish_ops(
                layer_plan::arrive_ops(c, k, partial is Some),
                k,
                f,
                partial,
            ),
        ),
{
    broadcast use {lemma_push_settled, lemma_push_contains};

    let d = layer_plan::arrive_ops(c, k, partial is Some);
    assert(settled(d));
}

/// Every partial sum of the feed-forward half is computed once and added once.
/// A shared expert that is put off is issued by the part that serves the picks,
/// and the first device computes its own experts only beside the second one.
pub proof fn every_partial_sum_counts_once(
    k: LayerKnobs,
    f: LayerFacts,
    pos: u32,
    s: LayerState,
    t: TokenState,
    m: MoeSetup,
    remote: bool,
    cap: u32,
    partial: Option<usize>,
)
    requires
        layer_plan::first_part(k, f, pos, s, t).stop is None,
        layer_plan::moe_stop(f, m) is None,
        layer_plan::partial_stop(partial) is None,
        k.mhc_split ==> layer_plan::opens(k, f),
        layer_plan::defers_shared(k, m) ==> m.paged && !m.preissued,
        f.hot ==> k.parallel,
    ensures
        times(layer_ops_of(k, f, pos, s, t, m, remote, cap, partial), Op::SharedExpert) == 1,
        times(layer_ops_of(k, f, pos, s, t, m, remote, cap, partial), Op::AddShared) == 1,
        times(layer_ops_of(k, f, pos, s, t, m, remote, cap, partial), Op::HotMoe) == if f.hot {
            1nat
        } else {
            0
        },
        times(layer_ops_of(k, f, pos, s, t, m, remote, cap, partial), Op::AddHot) == if f.hot {
            1nat
        } else {
            0
        },
        times(layer_ops_of(k, f, pos, s, t, m, remote, cap, partial), Op::PushMoe) == 1,
        times(layer_ops_of(k, f, pos, s, t, m, remote, cap, partial), Op::AwaitRemote) == if partial
            is Some {
            1nat
        } else {
            0
        },
        times(layer_ops_of(k, f, pos, s, t, m, remote, cap, partial), Op::AddRemote) == if partial
            is Some {
            1nat
        } else {
            0
        },
{
    lemma_parts(k, f, pos, s, t, m, remote, cap, partial);
    lemma_before_moe(k, f, pos, s, t, m);
    let a = before_moe(k, f, pos, s, t, m);
    lemma_tail_counts(a, k, f, m, remote, cap, partial, Op::SharedExpert);
    lemma_tail_counts(a, k, f, m, remote, cap, partial, Op::AddShared);
    lemma_tail_counts(a, k, f, m, remote, cap, partial, Op::HotMoe);
    lemma_tail_counts(a, k, f, m, remote, cap, partial, Op::AddHot);
    lemma_tail_counts(a, k, f, m, remote, cap, partial, Op::PushMoe);
    lemma_tail_counts(a, k, f, m, remote, cap, partial, Op::AwaitRemote);
    lemma_tail_counts(a, k, f, m, remote, cap, partial, Op::AddRemote);
}

/// One, where `cond` holds.
spec fn one_if(cond: bool) -> nat {
    if cond {
        1
    } else {
        0
    }
}

/// How often the second part issues an operation that the laws count.
proof fn lemma_moe_counts(a: Seq<Op>, k: LayerKnobs, f: LayerFacts, m: MoeSetup, x: Op)
    requires
        layer_plan::moe_stop(f, m) is None,
        counted(x),
        !(x is RoutedMoe),
    ensures
        times(layer_plan::moe_ops(a, k, f, m), x) == times(a, x) + (match x {
            Op::SharedExpert => one_if(k.parallel && !layer_plan::defers_shared(k, m)),
            Op::HotMoe => one_if(k.parallel && f.hot),
            Op::PushMoe => one_if(!m.preissued && !m.paged),
            _ => 0,
        }),
{
    let early = k.parallel && !layer_plan::defers_shared(k, m);
    let hoisted = layer_plan::hoists_input(k, f, m);
    let hot = k.parallel && f.hot;
    let wait = Op::Wait { signal: Signal::SelectedPushed, lane: Lane::IgpuCompute };
    let b = crate::layer_ops::push_if(a, early, Op::SharedExpert);
    let c = crate::layer_ops::push_if(b, hoisted, Op::QuantizeMoeInput);
    let d = crate::layer_ops::push_if(c, hot, Op::HotMoe);
    let e = crate::layer_ops::push_if(d, k.parallel, wait);
    lemma_push_times(a, Op::SharedExpert, x);
    lemma_push_times(b, Op::QuantizeMoeInput, x);
    lemma_push_times(c, Op::HotMoe, x);
    lemma_push_times(d, wait, x);
    if !m.preissued {
        if m.paged {
            let sync = Op::Sync { lane: Lane::Compute };
            lemma_push_times(e, sync, x);
            lemma_push_times(e.push(sync), Op::ReadPicks, x);
        } else {
            let moe = layer_plan::resident_moe(f, m);
            lemma_push_times(e, moe, x);
            lemma_return_counts(e.push(moe), k, x);
        }
    }
}

/// How often the way back issues an operation that the laws count.
proof fn lemma_return_counts(ops: Seq<Op>, k: LayerKnobs, x: Op)
    requires
        counted(x),
    ensures
        times(layer_plan::return_ops(ops, k), x) == times(ops, x) + one_if(x == Op::PushMoe),
{
    broadcast use lemma_push_times;

}

/// How often the part that serves the picks issues an operation that the laws
/// count.
proof fn lemma_picks_counts(
    b: Seq<Op>,
    k: LayerKnobs,
    f: LayerFacts,
    m: MoeSetup,
    remote: bool,
    cap: u32,
    x: Op,
)
    requires
        counted(x),
        !(x is RoutedMoe),
    ensures
        times(layer_plan::pick_ops(b, k, f, m, remote, cap), x) == times(b, x) + (match x {
            Op::SharedExpert => one_if(layer_plan::defers_shared(k, m)),
            Op::PushMoe => 1,
            Op::Submit => one_if(remote),
            _ => 0,
        }),
{
    broadcast use lemma_push_times;

}

/// How often the wait for the routed experts' sum issues an operation that the
/// laws count.
proof fn lemma_arrive_counts(c: Seq<Op>, k: LayerKnobs, pending: bool, x: Op)
    requires
        counted(x),
    ensures
        times(layer_plan::arrive_ops(c, k, pending), x) == times(c, x) + (match x {
            Op::SharedExpert => one_if(!k.parallel),
            Op::AwaitRemote => one_if(pending),
            _ => 0,
        }),
{
    broadcast use lemma_push_times;

}

/// How often the last part issues an operation that the laws count.
proof fn lemma_finish_counts(d: Seq<Op>, k: LayerKnobs, f: LayerFacts, partial: Option<usize>, x: Op)
    requires
        layer_plan::partial_stop(partial) is None,
        counted(x),
    ensures
        times(layer_plan::finish_ops(d, k, f, partial), x) == times(d, x) + (match x {
            Op::AddShared => 1,
            Op::AddHot => one_if(f.hot),
            Op::AddRemote => one_if(partial is Some),
            _ => 0,
        }),
{
    broadcast use lemma_push_times;

}

/// How often the parts behind the first issue an operation that the laws count.
proof fn lemma_tail_counts(
    a: Seq<Op>,
    k: LayerKnobs,
    f: LayerFacts,
    m: MoeSetup,
    remote: bool,
    cap: u32,
    partial: Option<usize>,
    x: Op,
)
    requires
        layer_plan::moe_stop(f, m) is None,
        layer_plan::partial_stop(partial) is None,
        counted(x),
        !(x is RoutedMoe),
    ensures
        times(behind_first(a, k, f, m, remote, cap, partial), x) == times(a, x) + (match x {
            Op::SharedExpert => one_if(k.parallel && !layer_plan::defers_shared(k, m)) + one_if(
                m.paged && !m.preissued && layer_plan::defers_shared(k, m),
            ) + one_if(!k.parallel),
            Op::AddShared => 1,
            Op::HotMoe => one_if(k.parallel && f.hot),
            Op::AddHot => one_if(f.hot),
            Op::PushMoe => one_if(!m.preissued),
            Op::AwaitRemote => one_if(partial is Some),
            Op::AddRemote => one_if(partial is Some),
            Op::Submit => one_if(m.paged && !m.preissued && remote),
            _ => 0,
        }),
{
    lemma_moe_counts(a, k, f, m, x);
    let b = layer_plan::moe_ops(a, k, f, m);
    lemma_picks_counts(b, k, f, m, remote, cap, x);
    let c = if m.paged && !m.preissued {
        layer_plan::pick_ops(b, k, f, m, remote, cap)
    } else {
        b
    };
    lemma_arrive_counts(c, k, partial is Some, x);
    lemma_finish_counts(layer_plan::arrive_ops(c, k, partial is Some), k, f, partial, x);
}

/// The other machine's sum is added only behind the arrival of this one's, which
/// would overwrite it.
pub proof fn a_remote_sum_is_added_behind_the_arrival(
    k: LayerKnobs,
    f: LayerFacts,
    pos: u32,
    s: LayerState,
    t: TokenState,
    m: MoeSetup,
    remote: bool,
    cap: u32,
    partial: Option<usize>,
)
    requires
        layer_plan::first_part(k, f, pos, s, t).stop is None,
        k.mhc_split ==> layer_plan::opens(k, f),
    ensures
        preceded(
            layer_ops_of(k, f, pos, s, t, m, remote, cap, partial),
            Op::AddRemote,
            Op::AwaitRemote,
        ),
        k.parallel ==> preceded(
            layer_ops_of(k, f, pos, s, t, m, remote, cap, partial),
            Op::AddRemote,
            Op::Wait { signal: Signal::MoeArrived, lane: Lane::Compute },
        ),
{
    lemma_parts(k, f, pos, s, t, m, remote, cap, partial);
    lemma_before_moe(k, f, pos, s, t, m);
    let wait = Op::Wait { signal: Signal::MoeArrived, lane: Lane::Compute };
    let a = before_moe(k, f, pos, s, t, m);
    let b = layer_plan::moe_ops(a, k, f, m);
    let c = if m.paged && !m.preissued {
        layer_plan::pick_ops(b, k, f, m, remote, cap)
    } else {
        b
    };
    assert(layer_plan::first_part(k, f, pos, s, t).stop is None);
    lemma_middle_adds_nothing(a, k, f, m, remote, cap);
    lemma_never_preceded(c, Op::AddRemote, Op::AwaitRemote);
    lemma_never_preceded(c, Op::AddRemote, wait);
    lemma_end_order(c, k, f, partial);
}

/// The parts in the middle add no remote sum.
proof fn lemma_middle_adds_nothing(
    a: Seq<Op>,
    k: LayerKnobs,
    f: LayerFacts,
    m: MoeSetup,
    remote: bool,
    cap: u32,
)
    requires
        times(a, Op::AddRemote) == 0,
    ensures
        times(layer_plan::moe_ops(a, k, f, m), Op::AddRemote) == 0,
        times(
            layer_plan::pick_ops(layer_plan::moe_ops(a, k, f, m), k, f, m, remote, cap),
            Op::AddRemote,
        ) == 0,
{
    assert(times(layer_plan::moe_ops(a, k, f, m), Op::AddRemote) == 0) by {
        broadcast use lemma_push_times;

    }
    lemma_picks_counts(layer_plan::moe_ops(a, k, f, m), k, f, m, remote, cap, Op::AddRemote);
}

/// The last parts add a remote sum behind the waits for it and for the local one.
proof fn lemma_end_order(c: Seq<Op>, k: LayerKnobs, f: LayerFacts, partial: Option<usize>)
    requires
        preceded(c, Op::AddRemote, Op::AwaitRemote),
        preceded(
            c,
            Op::AddRemote,
            Op::Wait { signal: Signal::MoeArrived, lane: Lane::Compute },
        ),
    ensures
        ({
            let ops = layer_plan::finish_ops(
                layer_plan::arrive_ops(c, k, partial is Some),
                k,
                f,
                partial,
            );
            &&& preceded(ops, Op::AddRemote, Op::AwaitRemote)
            &&& k.parallel ==> preceded(
                ops,
                Op::AddRemote,
                Op::Wait { signal: Signal::MoeArrived, lane: Lane::Compute },
            )
        }),
{
    broadcast use {lemma_push_preceded, lemma_push_contains};

    let wait = Op::Wait { signal: Signal::MoeArrived, lane: Lane::Compute };
    let d = layer_plan::arrive_ops(c, k, partial is Some);
    assert(preceded(d, Op::AddRemote, Op::AwaitRemote) && preceded(d, Op::AddRemote, wait));
    assert(partial is Some ==> d.contains(Op::AwaitRemote));
    assert(k.parallel ==> d.contains(wait));
}

proof fn lemma_never_preceded(ops: Seq<Op>, later: Op, earlier: Op)
    requires
        times(ops, later) == 0,
    ensures
        preceded(ops, later, earlier),
    decreases ops.len(),
{
    broadcast use lemma_push_preceded;

    if ops.len() > 0 {
        lemma_never_preceded(ops.drop_last(), later, earlier);
        assert(ops =~= ops.drop_last().push(ops.last()));
    }
}

/// The picks are served in this order: the other machine gets its share before
/// this one pages, what is its is marked only behind the paging, the split is
/// checked behind both, and nothing is computed before that.
pub proof fn picks_are_served_in_order(
    k: LayerKnobs,
    f: LayerFacts,
    m: MoeSetup,
    remote: bool,
    cap: u32,
)
    ensures
        ({
            let ops = layer_plan::pick_ops(Seq::empty(), k, f, m, remote, cap);
            let ensure = Op::Ensure { batched: k.batch_miss };
            let moe = Op::RoutedMoe { kind: MoeKind::Paged, cap };
            &&& remote ==> preceded(ops, ensure, Op::Submit)
            &&& preceded(ops, Op::MarkRemote, ensure)
            &&& preceded(ops, Op::VerifyRouting, ensure)
            &&& remote ==> preceded(ops, Op::VerifyRouting, Op::MarkRemote)
            &&& preceded(ops, moe, Op::VerifyRouting)
            &&& preceded(ops, Op::PushMoe, moe)
            &&& remote ==> preceded(ops, Op::SharedExpert, Op::Submit)
        }),
{
    broadcast use {lemma_push_preceded, lemma_push_contains};

}

/// Whatever is handed to the other machine was quantized before.
pub proof fn a_share_is_quantized_before_it_is_sent(
    k: LayerKnobs,
    f: LayerFacts,
    m: MoeSetup,
    remote: bool,
    cap: u32,
)
    ensures
        preceded(
            layer_plan::pick_ops(
                layer_plan::moe_ops(Seq::empty(), k, f, m),
                k,
                f,
                m,
                remote,
                cap,
            ),
            Op::Submit,
            Op::QuantizeMoeInput,
        ),
{
    broadcast use {lemma_push_preceded, lemma_push_contains};

    let b = layer_plan::moe_ops(Seq::empty(), k, f, m);
    assert(preceded(b, Op::Submit, Op::QuantizeMoeInput));
    assert(layer_plan::hoists_input(k, f, m) ==> b.contains(Op::QuantizeMoeInput));
}

/// The routed experts are computed behind the picks: where their part is issued
/// with the layer, it stands behind the picks' way to the second device, and behind
/// a wait for it where the devices run side by side.
pub proof fn the_routed_experts_follow_the_picks(
    k: LayerKnobs,
    f: LayerFacts,
    pos: u32,
    s: LayerState,
    t: TokenState,
    m: MoeSetup,
    remote: bool,
    cap: u32,
    partial: Option<usize>,
    moe: Op,
)
    requires
        layer_plan::first_part(k, f, pos, s, t).stop is None,
        k.mhc_split ==> layer_plan::opens(k, f),
        !m.preissued,
        moe is RoutedMoe,
    ensures
        preceded(
            layer_ops_of(k, f, pos, s, t, m, remote, cap, partial),
            moe,
            Op::PushSelected,
        ),
        k.parallel ==> preceded(
            layer_ops_of(k, f, pos, s, t, m, remote, cap, partial),
            moe,
            Op::Wait { signal: Signal::SelectedPushed, lane: Lane::IgpuCompute },
        ),
{
    lemma_parts(k, f, pos, s, t, m, remote, cap, partial);
    lemma_first_part(k, f, pos, s, t);
    let a = layer_plan::first_part(k, f, pos, s, t).ops;
    assert(before_moe(k, f, pos, s, t, m) =~= a);
    assert(times(a, moe) == 0);
    lemma_never_preceded(a, moe, Op::PushSelected);
    lemma_tail_follows(a, k, f, m, remote, cap, partial, moe, Op::PushSelected);
    let wait = Op::Wait { signal: Signal::SelectedPushed, lane: Lane::IgpuCompute };
    lemma_never_preceded(a, moe, wait);
    if k.parallel {
        lemma_tail_follows(a, k, f, m, remote, cap, partial, moe, wait);
    }
}

/// Behind the first part the routed experts follow what the first part issued, and
/// the wait for the picks.
proof fn lemma_tail_follows(
    a: Seq<Op>,
    k: LayerKnobs,
    f: LayerFacts,
    m: MoeSetup,
    remote: bool,
    cap: u32,
    partial: Option<usize>,
    moe: Op,
    earlier: Op,
)
    requires
        !m.preissued,
        moe is RoutedMoe,
        preceded(a, moe, earlier),
        a.contains(earlier) || (k.parallel && earlier == Op::Wait {
            signal: Signal::SelectedPushed,
            lane: Lane::IgpuCompute,
        }),
    ensures
        preceded(behind_first(a, k, f, m, remote, cap, partial), moe, earlier),
{
    let b = layer_plan::moe_ops(a, k, f, m);
    assert(preceded(b, moe, earlier) && b.contains(earlier)) by {
        broadcast use {lemma_push_preceded, lemma_push_contains};

    }
    let c = if m.paged {
        layer_plan::pick_ops(b, k, f, m, remote, cap)
    } else {
        b
    };
    assert(preceded(c, moe, earlier)) by {
        broadcast use {lemma_push_preceded, lemma_push_contains};

    }
    lemma_arrive_keeps(c, k, partial is Some, moe, earlier);
    lemma_finish_keeps(layer_plan::arrive_ops(c, k, partial is Some), k, f, partial, moe, earlier);
}

/// `run` takes the operations of `a` and of `b`, each in its order.
pub open spec fn interleaves(run: Seq<Op>, a: Seq<Op>, b: Seq<Op>) -> bool
    decreases run.len(),
{
    if run.len() == 0 {
        a.len() == 0 && b.len() == 0
    } else {
        ||| a.len() > 0 && a.last() == run.last() && interleaves(run.drop_last(), a.drop_last(), b)
        ||| b.len() > 0 && b.last() == run.last() && interleaves(run.drop_last(), a, b.drop_last())
    }
}

proof fn lemma_interleaved(run: Seq<Op>, a: Seq<Op>, b: Seq<Op>, later: Op, earlier: Op)
    requires
        interleaves(run, a, b),
        preceded(a, later, earlier),
        preceded(b, later, earlier),
    ensures
        preceded(run, later, earlier),
        a.contains(earlier) || b.contains(earlier) ==> run.contains(earlier),
    decreases run.len(),
{
    broadcast use {lemma_push_preceded, lemma_push_contains};

    if run.len() == 0 {
    } else if a.len() > 0 && a.last() == run.last() && interleaves(run.drop_last(), a.drop_last(), b) {
        assert(run =~= run.drop_last().push(run.last()));
        assert(a =~= a.drop_last().push(a.last()));
        lemma_interleaved(run.drop_last(), a.drop_last(), b, later, earlier);
    } else {
        assert(run =~= run.drop_last().push(run.last()));
        assert(b =~= b.drop_last().push(b.last()));
        lemma_interleaved(run.drop_last(), a, b.drop_last(), later, earlier);
    }
}

proof fn lemma_preceded_through(ops: Seq<Op>, last: Op, middle: Op, first: Op)
    requires
        preceded(ops, last, middle),
        preceded(ops, middle, first),
    ensures
        preceded(ops, last, first),
{
    assert forall|j: int| 0 <= j < ops.len() && #[trigger] ops[j] == last implies ops.take(j).contains(
        first,
    ) by {
        let i = choose|i: int| 0 <= i < ops.take(j).len() && ops.take(j)[i] == middle;
        assert(ops[i] == middle);
        let h = choose|h: int| 0 <= h < ops.take(i).len() && ops.take(i)[h] == first;
        assert(ops.take(j)[h] == first);
    }
}

/// Where their part was issued ahead of the token, the routed experts are computed
/// behind the picks too, however the devices run beside each other: in every run
/// of what was issued ahead beside the layer itself, in which the wait for the
/// signal passes only behind its raising, they come behind the picks' way to the
/// second device. The layer does raise the signal that is waited for.
pub proof fn routed_experts_issued_ahead_follow_the_picks(
    k: LayerKnobs,
    f: LayerFacts,
    pos: u32,
    s: LayerState,
    t: TokenState,
    m: MoeSetup,
    partial: Option<usize>,
    run: Seq<Op>,
    moe: Op,
)
    requires
        layer_plan::first_part(k, f, pos, s, t).stop is None,
        k.mhc_split ==> layer_plan::opens(k, f),
        k.parallel,
        m.preissued,
        moe is RoutedMoe,
        interleaves(
            run,
            layer_plan::ahead_ops(t.seq),
            token_ops(k, f, pos, s, t, m, partial),
        ),
        preceded(
            run,
            Op::WaitMoeSignal { seq: t.seq },
            Op::RaiseMoeSignal { seq: t.seq },
        ),
    ensures
        token_ops(k, f, pos, s, t, m, partial).contains(Op::RaiseMoeSignal { seq: t.seq }),
        preceded(run, moe, Op::WaitMoeSignal { seq: t.seq }),
        preceded(run, moe, Op::RaiseMoeSignal { seq: t.seq }),
        preceded(run, moe, Op::PushSelected),
{
    lemma_token_ops(k, f, pos, s, t, m, partial, moe);
    lemma_ahead_follows(run, token_ops(k, f, pos, s, t, m, partial), k, t.seq, moe);
}

proof fn lemma_ahead_order(seq: u32, moe: Op)
    requires
        moe is RoutedMoe,
    ensures
        preceded(layer_plan::ahead_ops(seq), moe, Op::WaitMoeSignal { seq }),
        preceded(layer_plan::ahead_ops(seq), Op::RaiseMoeSignal { seq }, Op::PushSelected),
{
    broadcast use {lemma_push_preceded, lemma_push_contains};

    assert(preceded(Seq::<Op>::empty(), moe, Op::WaitMoeSignal { seq }));
    assert(preceded(Seq::<Op>::empty(), Op::RaiseMoeSignal { seq }, Op::PushSelected));
}

proof fn lemma_ahead_follows(run: Seq<Op>, own: Seq<Op>, k: LayerKnobs, seq: u32, moe: Op)
    requires
        k.parallel,
        moe is RoutedMoe,
        interleaves(run, layer_plan::ahead_ops(seq), own),
        preceded(run, Op::WaitMoeSignal { seq }, Op::RaiseMoeSignal { seq }),
        picks_raised(own, k, seq),
        preceded(own, moe, Op::WaitMoeSignal { seq }),
    ensures
        preceded(run, moe, Op::WaitMoeSignal { seq }),
        preceded(run, moe, Op::RaiseMoeSignal { seq }),
        preceded(run, moe, Op::PushSelected),
{
    let wait = Op::WaitMoeSignal { seq };
    let raise = Op::RaiseMoeSignal { seq };
    lemma_ahead_order(seq, moe);
    lemma_interleaved(run, layer_plan::ahead_ops(seq), own, moe, wait);
    lemma_interleaved(run, layer_plan::ahead_ops(seq), own, raise, Op::PushSelected);
    lemma_preceded_through(run, moe, wait, raise);
    lemma_preceded_through(run, moe, raise, Op::PushSelected);
}

/// What a layer issues itself, where its routed experts were issued ahead of the
/// token.
pub open spec fn token_ops(
    k: LayerKnobs,
    f: LayerFacts,
    pos: u32,
    s: LayerState,
    t: TokenState,
    m: MoeSetup,
    partial: Option<usize>,
) -> Seq<Op> {
    layer_plan::finish_ops(
        layer_plan::arrive_ops(
            layer_plan::moe_ops(layer_plan::first_part(k, f, pos, s, t).ops, k, f, m),
            k,
            partial is Some,
        ),
        k,
        f,
        partial,
    )
}

proof fn lemma_token_ops(
    k: LayerKnobs,
    f: LayerFacts,
    pos: u32,
    s: LayerState,
    t: TokenState,
    m: MoeSetup,
    partial: Option<usize>,
    moe: Op,
)
    requires
        layer_plan::first_part(k, f, pos, s, t).stop is None,
        k.mhc_split ==> layer_plan::opens(k, f),
        k.parallel,
        m.preissued,
        moe is RoutedMoe,
    ensures
        picks_raised(token_ops(k, f, pos, s, t, m, partial), k, t.seq),
        preceded(token_ops(k, f, pos, s, t, m, partial), moe, Op::WaitMoeSignal { seq: t.seq }),
{
    lemma_first_part(k, f, pos, s, t);
    let wait = Op::WaitMoeSignal { seq: t.seq };
    let a = layer_plan::first_part(k, f, pos, s, t).ops;
    assert(times(a, moe) == 0);
    lemma_never_preceded(a, moe, wait);
    lemma_rest_raises(a, k, f, m, partial, t.seq, moe);
}

/// What follows the first part of a layer whose routed experts were issued ahead
/// neither raises the signal nor computes routed experts.
proof fn lemma_rest_raises(
    a: Seq<Op>,
    k: LayerKnobs,
    f: LayerFacts,
    m: MoeSetup,
    partial: Option<usize>,
    seq: u32,
    moe: Op,
)
    requires
        m.preissued,
        moe is RoutedMoe,
        picks_raised(a, k, seq),
        preceded(a, moe, Op::WaitMoeSignal { seq }),
    ensures
        ({
            let b = layer_plan::moe_ops(a, k, f, m);
            let c = layer_plan::arrive_ops(b, k, partial is Some);
            let d = layer_plan::finish_ops(c, k, f, partial);
            picks_raised(d, k, seq) && preceded(d, moe, Op::WaitMoeSignal { seq })
        }),
{
    let wait = Op::WaitMoeSignal { seq };
    let raise = Op::RaiseMoeSignal { seq };
    let b = layer_plan::moe_ops(a, k, f, m);
    lemma_moe_keeps(a, k, f, m, moe, wait);
    lemma_moe_keeps(a, k, f, m, raise, Op::PushSelected);
    let c = layer_plan::arrive_ops(b, k, partial is Some);
    lemma_arrive_keeps(b, k, partial is Some, moe, wait);
    lemma_arrive_keeps(b, k, partial is Some, raise, Op::PushSelected);
    lemma_finish_keeps(c, k, f, partial, moe, wait);
    lemma_finish_keeps(c, k, f, partial, raise, Op::PushSelected);
}

proof fn lemma_moe_keeps(a: Seq<Op>, k: LayerKnobs, f: LayerFacts, m: MoeSetup, later: Op, earlier: Op)
    requires
        m.preissued,
        later is RoutedMoe || later is RaiseMoeSignal,
        preceded(a, later, earlier),
    ensures
        preceded(layer_plan::moe_ops(a, k, f, m), later, earlier),
        forall|x: Op| #[trigger] a.contains(x) ==> layer_plan::moe_ops(a, k, f, m).contains(x),
{
    broadcast use {lemma_push_preceded, lemma_push_contains};

}

proof fn lemma_arrive_keeps(a: Seq<Op>, k: LayerKnobs, pending: bool, later: Op, earlier: Op)
    requires
        later is RoutedMoe || later is RaiseMoeSignal,
        preceded(a, later, earlier),
    ensures
        preceded(layer_plan::arrive_ops(a, k, pending), later, earlier),
        forall|x: Op| #[trigger] a.contains(x) ==> layer_plan::arrive_ops(a, k, pending).contains(x),
{
    broadcast use {lemma_push_preceded, lemma_push_contains};

}

proof fn lemma_finish_keeps(
    a: Seq<Op>,
    k: LayerKnobs,
    f: LayerFacts,
    partial: Option<usize>,
    later: Op,
    earlier: Op,
)
    requires
        later is RoutedMoe || later is RaiseMoeSignal,
        preceded(a, later, earlier),
    ensures
        preceded(layer_plan::finish_ops(a, k, f, partial), later, earlier),
        forall|x: Op| #[trigger] a.contains(x) ==> layer_plan::finish_ops(a, k, f, partial).contains(x),
{
    broadcast use {lemma_push_preceded, lemma_push_contains};

}

/// Every row that a layer takes leaves its window well formed: it grows until it is
/// full and then slides, and where the slots run out it starts over at the first.
/// A layer that cannot begin changes nothing.
pub proof fn a_layer_keeps_its_window(
    k: LayerKnobs,
    f: LayerFacts,
    pos: u32,
    s: LayerState,
    t: TokenState,
)
    requires
        s.window.wf(k.kv_rows),
    ensures
        ({
            let r = layer_plan::first_part(k, f, pos, s, t);
            let w = r.state.window;
            if layer_plan::begin_stop(f, t) is Some {
                &&& r.stop == layer_plan::begin_stop(f, t)
                &&& r.state == s
                &&& r.token == t
            } else {
                &&& w.wf(k.kv_rows)
                &&& w.n_raw == (if s.window.n_raw < SWA_WINDOW {
                    s.window.n_raw + 1
                } else {
                    SWA_WINDOW as int
                })
                &&& w.raw_off == 0 || w.raw_off == s.window.raw_off + (if s.window.n_raw == SWA_WINDOW {
                    1int
                } else {
                    0
                })
                &&& (w.raw_off == 0 && s.window.raw_off > 0) ==> s.window.raw_off + SWA_WINDOW + 1 == k.kv_rows
            }
        }),
{
}

/// A layer whose weights are another layer's is refused with nothing issued.
pub proof fn a_layer_mismatch_issues_nothing(
    k: LayerKnobs,
    f: LayerFacts,
    pos: u32,
    s: LayerState,
    t: TokenState,
)
    requires
        f.igpu_layer != f.layer,
    ensures
        layer_plan::first_part(k, f, pos, s, t) == (layer_plan::LayerRun {
            ops: Seq::empty(),
            state: s,
            token: t,
            stop: Some(LayerError::LayerMismatch),
        }),
{
}

/// Of two layers in a row exactly one computes the mix between them.
pub proof fn the_mix_between_two_layers_is_computed_once(
    k: LayerKnobs,
    f: LayerFacts,
    g: LayerFacts,
)
    requires
        g.layer == f.layer + 1,
        f.layer >= 0,
        f.next_engram == Some(g.engram),
    ensures
        layer_plan::closes(k, f) <==> layer_plan::opens(k, g),
{
}

} // verus!
