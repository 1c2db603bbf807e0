//! One token from its embedding to the head: which layers run how, and what is
//! done between them.

use vstd::prelude::*;
use crate::config::{HC_DIM, N_EMBD, N_LAYER};
use crate::layer_ops::{LayerState, TokenState};
use crate::pool::PagerCounters;

verus! {

/// Lanes that have events of their own.
pub const MAX_LANES: usize = 3;

/// Events that one device's pool holds.
pub const EVENT_POOL_CAPACITY: usize = 16384;

/// How the two devices run.
#[derive(Debug, Clone, Copy, PartialEq, Eq, Structural)]
pub enum ExecMode {
    /// One kernel at a time, each waited for.
    HetSingleStream,
    /// Side by side, joined by events.
    HetParallel,
}

/// Why a token cannot be run.
#[derive(Debug, Clone, Copy, PartialEq, Eq, Structural)]
pub enum TokenError {
    /// The input is not as long as the residual stream.
    InputLength,
    /// A layer needs engram rows that were not given.
    NoEngramRows { layer: usize },
    /// The engram rows given for a layer have the wrong length.
    EngramRowLength { layer: usize },
}

/// How a layer runs.
#[derive(Debug, Clone, Copy, PartialEq, Eq, Structural)]
pub enum LayerPath {
    /// By itself, its experts from the pager.
    Paged,
    /// Joined to its neighbours, the second device's part issued before.
    Preissued,
    /// Joined to its neighbours.
    Joined,
}

/// One step of a token.
#[derive(Debug, Clone, Copy, PartialEq, Eq, Structural)]
pub enum TokenStep {
    /// Writes the position and the slot of the new row for the kernels to read.
    Publish { pos: u32, slot: u32 },
    /// Issues the second device's part of a layer, held back until the layer's
    /// signal reaches `seq`.
    IssueAhead { layer: usize, seq: u32 },
    /// Dumps the residual that enters a layer.
    DumpEntering { layer: usize },
    /// Offers the residual that enters a layer to the drafter.
    Capture { layer: usize },
    /// Moves a store to the layer that reuses it.
    Lend { from: usize, to: usize },
    /// Stages the rows of a layer's engram.
    StageEngram { layer: usize, row: usize },
    RunLayer { layer: usize, path: LayerPath },
    /// Moves a store back to its layer.
    Return { from: usize, to: usize },
    /// Counts the picks of a layer.
    CountPicks { layer: usize },
    SwapResidual,
    /// Replaces the residual behind a layer.
    Substitute { layer: usize },
    /// Dumps the residual as the input of a layer.
    DumpResidual { layer: usize },
    Head,
    DumpLogits,
    Sync,
}

/// What a layer shares with others.
#[derive(Debug, Clone, Copy, PartialEq, Eq, Structural)]
pub struct LayerLinks {
    pub engram: bool,
    /// Layer whose store this one reuses.
    pub kv_source: Option<usize>,
}

/// The switches and inputs that a token's steps depend on.
pub struct TokenSetup {
    pub path: LayerPath,
    /// The second device's parts are issued in front of the first layer.
    pub ahead: bool,
    /// Residuals are offered to the drafter.
    pub capture: bool,
    /// Lengths of the engram rows that were given.
    pub engram_rows: Option<Vec<usize>>,
    /// Length that an engram row has.
    pub engram_in: usize,
    pub count_picks: bool,
    /// Layers whose values are dumped.
    pub dump_layers: Vec<usize>,
    pub dump_residual: bool,
    pub substitute_after: Option<usize>,
    pub dump_logits: bool,
}

/// A list with one more step, where `cond` holds.
pub open spec fn step_if(steps: Seq<TokenStep>, cond: bool, step: TokenStep) -> Seq<TokenStep> {
    if cond {
        steps.push(step)
    } else {
        steps
    }
}

fn add_if(steps: &mut Vec<TokenStep>, cond: bool, step: TokenStep)
    ensures
        final(steps)@ == step_if(old(steps)@, cond, step),
{
    if cond {
        steps.push(step);
    }
}

/// The place of a layer's rows among the engram rows.
pub open spec fn engram_place(layer: int) -> Option<usize> {
    if layer == 1 {
        Some(0)
    } else if layer == 14 {
        Some(1)
    } else {
        None
    }
}

/// The place of a layer's rows among the engram rows.
pub fn engram_row(layer: usize) -> (r: Option<usize>)
    ensures
        r == engram_place(layer as int),
{
    if layer == 1 {
        Some(0)
    } else if layer == 14 {
        Some(1)
    } else {
        None
    }
}

/// Why a layer's engram rows cannot be staged.
pub open spec fn engram_stop(c: TokenSetup, l: int) -> Option<TokenError> {
    match (c.engram_rows, engram_place(l)) {
        (Some(rows), Some(i)) => if i >= rows.len() {
            Some(TokenError::NoEngramRows { layer: l as usize })
        } else if rows@[i as int] != c.engram_in {
            Some(TokenError::EngramRowLength { layer: l as usize })
        } else {
            None
        },
        _ => Some(TokenError::NoEngramRows { layer: l as usize }),
    }
}

/// Why a token stops at a layer.
pub open spec fn layer_stop(c: TokenSetup, links: LayerLinks, l: int) -> Option<TokenError> {
    if links.engram {
        engram_stop(c, l)
    } else {
        None
    }
}

/// What is done in front of a layer, behind `steps`.
pub open spec fn enter_steps(steps: Seq<TokenStep>, c: TokenSetup, links: LayerLinks, l: int) -> Seq<
    TokenStep,
> {
    let layer = l as usize;
    let steps = step_if(
        steps,
        c.dump_layers@.contains(layer),
        TokenStep::DumpEntering { layer },
    );
    let steps = step_if(steps, c.capture, TokenStep::Capture { layer });
    match links.kv_source {
        Some(from) => steps.push(TokenStep::Lend { from, to: layer }),
        None => steps,
    }
}

/// A layer and what is done behind it, behind `steps`.
pub open spec fn leave_steps(steps: Seq<TokenStep>, c: TokenSetup, links: LayerLinks, l: int) -> Seq<
    TokenStep,
> {
    let layer = l as usize;
    let steps = step_if(
        steps,
        links.engram,
        TokenStep::StageEngram { layer, row: engram_place(l)->0 },
    ).push(TokenStep::RunLayer { layer, path: c.path });
    let steps = match links.kv_source {
        Some(from) => steps.push(TokenStep::Return { from, to: layer }),
        None => steps,
    };
    let steps = step_if(steps, c.count_picks, TokenStep::CountPicks { layer }).push(
        TokenStep::SwapResidual,
    );
    let steps = step_if(
        steps,
        c.substitute_after == Some(layer),
        TokenStep::Substitute { layer },
    );
    step_if(steps, c.dump_residual, TokenStep::DumpResidual { layer: (l + 1) as usize })
}

/// The steps of the layers below `n`, behind `steps`, and why they end.
pub open spec fn layers_steps(
    steps: Seq<TokenStep>,
    c: TokenSetup,
    links: Seq<LayerLinks>,
    n: int,
) -> (Seq<TokenStep>, Option<TokenError>)
    decreases n,
{
    if n <= 0 {
        (steps, None)
    } else {
        let (done, stop) = layers_steps(steps, c, links, n - 1);
        if stop is Some {
            (done, stop)
        } else {
            let link = links[n - 1];
            let entered = enter_steps(done, c, link, n - 1);
            let stop = layer_stop(c, link, n - 1);
            if stop is Some {
                (entered, stop)
            } else {
                (leave_steps(entered, c, link, n - 1), None)
            }
        }
    }
}

/// The second device's parts of the layers below `n`, behind `steps`.
pub open spec fn ahead_steps(steps: Seq<TokenStep>, n: int, seq: u32) -> Seq<TokenStep>
    decreases n,
{
    if n <= 0 {
        steps
    } else {
        ahead_steps(steps, n - 1, seq).push(TokenStep::IssueAhead { layer: (n - 1) as usize, seq })
    }
}

/// The steps in front of the first layer.
pub open spec fn opening_steps(c: TokenSetup, n: int, pos: u32, slot: u32, seq: u32) -> Seq<TokenStep> {
    let steps = step_if(Seq::empty(), c.dump_residual, TokenStep::DumpResidual { layer: 0 }).push(
        TokenStep::Publish { pos, slot },
    );
    if c.ahead {
        ahead_steps(steps, n, seq)
    } else {
        steps
    }
}

/// The steps behind the last layer, behind `steps`.
pub open spec fn closing_steps(steps: Seq<TokenStep>, c: TokenSetup, n: int) -> Seq<TokenStep> {
    let steps = step_if(steps.push(TokenStep::Head), c.dump_logits, TokenStep::DumpLogits);
    step_if(steps, n % 2 == 1, TokenStep::SwapResidual).push(TokenStep::Sync)
}

/// The sequence of the token behind one of sequence `seq`.
pub open spec fn next_seq(seq: u32) -> u32 {
    if seq == u32::MAX {
        0
    } else {
        (seq + 1) as u32
    }
}

/// The steps of a token of sequence `seq`, and why they end early.
pub open spec fn token_plan(c: TokenSetup, links: Seq<LayerLinks>, pos: u32, slot: u32, seq: u32) -> (
    Seq<TokenStep>,
    Option<TokenError>,
) {
    let n = links.len() as int;
    let (steps, stop) = layers_steps(opening_steps(c, n, pos, slot, seq), c, links, n);
    if stop is Some {
        (steps, stop)
    } else {
        (closing_steps(steps, c, n), None)
    }
}

/// Does the list hold the layer?
fn lists(layers: &Vec<usize>, layer: usize) -> (r: bool)
    ensures
        r == layers@.contains(layer),
{
    let mut i: usize = 0;
    while i < layers.len()
        invariant
            i <= layers.len(),
            forall|j: int| 0 <= j < i ==> #[trigger] layers@[j] != layer,
        decreases layers.len() - i,
    {
        if layers[i] == layer {
            return true;
        }
        i = i + 1;
    }
    false
}

/// Is the dump of a layer's values on? `layers` are those that it is on for.
pub fn subtensor_dump_armed(layers: &Vec<usize>, layer: usize) -> (r: bool)
    ensures
        r == layers@.contains(layer),
{
    lists(layers, layer)
}

/// Which of the engram rows a layer takes.
fn engram_check(c: &TokenSetup, layer: usize) -> (r: Result<usize, TokenError>)
    ensures
        match engram_stop(*c, layer as int) {
            Some(e) => r == Err::<usize, TokenError>(e),
            None => r == Ok::<usize, TokenError>(engram_place(layer as int)->0),
        },
{
    match (&c.engram_rows, engram_row(layer)) {
        (Some(rows), Some(i)) => if i >= rows.len() {
            Err(TokenError::NoEngramRows { layer })
        } else if rows[i] != c.engram_in {
            Err(TokenError::EngramRowLength { layer })
        } else {
            Ok(i)
        },
        _ => Err(TokenError::NoEngramRows { layer }),
    }
}

/// The steps of a token at `pos`, whose input has `input_len` values and whose row
/// takes `slot`. The token is the next one of the sequence, whatever becomes of it,
/// unless its input has the wrong length: it then takes no step. No selection of
/// rows is kept over from the token before. Where an input is missing the steps end
/// in front of the layer that needs it.
pub fn forward_token(
    c: &TokenSetup,
    links: &Vec<LayerLinks>,
    input_len: usize,
    pos: u32,
    slot: u32,
    t: &mut TokenState,
) -> (r: (Vec<TokenStep>, Option<TokenError>))
    requires
        links.len() < usize::MAX,
    ensures
        input_len != HC_DIM ==> {
            &&& r.0@ == Seq::<TokenStep>::empty()
            &&& r.1 == Some(TokenError::InputLength)
            &&& *final(t) == *old(t)
        },
        input_len == HC_DIM ==> {
            &&& *final(t) == (TokenState { seq: next_seq(old(t).seq), gather_src: -1i32, ..*old(t) })
            &&& r.0@ == token_plan(*c, links@, pos, slot, next_seq(old(t).seq)).0
            &&& r.1 == token_plan(*c, links@, pos, slot, next_seq(old(t).seq)).1
        },
{
    if let Err(e) = check_input(input_len) {
        return (Vec::new(), Some(e));
    }
    forget_gather(t);
    t.seq = if t.seq == u32::MAX { 0 } else { t.seq + 1 };
    let seq: u32 = t.seq;
    let n: usize = links.len();
    let mut steps: Vec<TokenStep> = Vec::new();
    add_if(&mut steps, c.dump_residual, TokenStep::DumpResidual { layer: 0 });
    steps.push(TokenStep::Publish { pos, slot });
    if c.ahead {
        let ghost start = steps@;
        let mut l: usize = 0;
        while l < n
            invariant
                l <= n,
                steps@ == ahead_steps(start, l as int, seq),
            decreases n - l,
        {
            steps.push(TokenStep::IssueAhead { layer: l, seq });
            l = l + 1;
        }
    }
    let ghost opening = steps@;
    let mut layer: usize = 0;
    while layer < n
        invariant
            layer <= n,
            n == links.len(),
            n < usize::MAX,
            opening == opening_steps(*c, n as int, pos, slot, seq),
            input_len == HC_DIM,
            seq == next_seq(old(t).seq),
            *t == (TokenState { seq, gather_src: -1i32, ..*old(t) }),
            layers_steps(opening, *c, links@, layer as int) == (steps@, None::<TokenError>),
        decreases n - layer,
    {
        let link = links[layer];
        add_if(&mut steps, lists(&c.dump_layers, layer), TokenStep::DumpEntering { layer });
        add_if(&mut steps, c.capture, TokenStep::Capture { layer });
        if let Some(from) = link.kv_source {
            steps.push(TokenStep::Lend { from, to: layer });
        }
        if link.engram {
            match engram_check(c, layer) {
                Err(e) => {
                    proof {
                        lemma_stopped(opening, *c, links@, layer + 1, n as int);
                    }
                    return (steps, Some(e));
                },
                Ok(row) => {
                    steps.push(TokenStep::StageEngram { layer, row });
                },
            }
        }
        steps.push(TokenStep::RunLayer { layer, path: c.path });
        if let Some(from) = link.kv_source {
            steps.push(TokenStep::Return { from, to: layer });
        }
        add_if(&mut steps, c.count_picks, TokenStep::CountPicks { layer });
        steps.push(TokenStep::SwapResidual);
        let substitutes = match c.substitute_after {
            Some(l) => l == layer,
            None => false,
        };
        add_if(&mut steps, substitutes, TokenStep::Substitute { layer });
        add_if(&mut steps, c.dump_residual, TokenStep::DumpResidual { layer: layer + 1 });
        layer = layer + 1;
    }
    steps.push(TokenStep::Head);
    add_if(&mut steps, c.dump_logits, TokenStep::DumpLogits);
    add_if(&mut steps, n % 2 == 1, TokenStep::SwapResidual);
    steps.push(TokenStep::Sync);
    (steps, None)
}

/// Steps that ended at one layer stay as they are.
pub proof fn lemma_stopped(
    steps: Seq<TokenStep>,
    c: TokenSetup,
    links: Seq<LayerLinks>,
    at: int,
    n: int,
)
    requires
        0 <= at <= n,
        layers_steps(steps, c, links, at).1 is Some,
    ensures
        layers_steps(steps, c, links, n) == layers_steps(steps, c, links, at),
    decreases n - at,
{
    if at < n {
        lemma_stopped(steps, c, links, at + 1, n);
    }
}

/// How often a step is taken.
pub open spec fn taken(steps: Seq<TokenStep>, step: TokenStep) -> nat
    decreases steps.len(),
{
    if steps.len() == 0 {
        0
    } else {
        taken(steps.drop_last(), step) + if steps.last() == step {
            1nat
        } else {
            0
        }
    }
}

pub broadcast proof fn lemma_push_taken(steps: Seq<TokenStep>, step: TokenStep, x: TokenStep)
    ensures
        #[trigger] taken(steps.push(step), x) == taken(steps, x) + if step == x {
            1nat
        } else {
            0
        },
{
    assert(steps.push(step).drop_last() =~= steps);
}

pub proof fn lemma_ahead_taken(steps: Seq<TokenStep>, n: int, seq: u32, x: TokenStep)
    requires
        !(x is IssueAhead),
    ensures
        taken(ahead_steps(steps, n, seq), x) == taken(steps, x),
    decreases n,
{
    broadcast use lemma_push_taken;

    if n > 0 {
        lemma_ahead_taken(steps, n - 1, seq, x);
    }
}

/// The layers that some steps run, in order.
pub open spec fn ran(steps: Seq<TokenStep>) -> Seq<usize>
    decreases steps.len(),
{
    if steps.len() == 0 {
        Seq::empty()
    } else {
        let before = ran(steps.drop_last());
        match steps.last() {
            TokenStep::RunLayer { layer, .. } => before.push(layer),
            _ => before,
        }
    }
}

pub broadcast proof fn lemma_push_ran(steps: Seq<TokenStep>, step: TokenStep)
    ensures
        #[trigger] ran(steps.push(step)) == (match step {
            TokenStep::RunLayer { layer, .. } => ran(steps).push(layer),
            _ => ran(steps),
        }),
{
    assert(steps.push(step).drop_last() =~= steps);
}

pub proof fn lemma_ahead_ran(steps: Seq<TokenStep>, n: int, seq: u32)
    ensures
        ran(ahead_steps(steps, n, seq)) == ran(steps),
    decreases n,
{
    broadcast use lemma_push_ran;

    if n > 0 {
        lemma_ahead_ran(steps, n - 1, seq);
    }
}

pub proof fn lemma_layers_ran(steps: Seq<TokenStep>, c: TokenSetup, links: Seq<LayerLinks>, n: int)
    requires
        0 <= n <= usize::MAX,
        ran(steps) == Seq::<usize>::empty(),
        layers_steps(steps, c, links, n).1 is None,
    ensures
        ran(layers_steps(steps, c, links, n).0) == Seq::new(n as nat, |i: int| i as usize),
    decreases n,
{
    broadcast use lemma_push_ran;

    if n > 0 {
        lemma_layers_ran(steps, c, links, n - 1);
        let done = layers_steps(steps, c, links, n - 1).0;
        let entered = enter_steps(done, c, links[n - 1], n - 1);
        assert(ran(entered) == ran(done));
        assert(ran(leave_steps(entered, c, links[n - 1], n - 1)) == ran(done).push(
            (n - 1) as usize,
        ));
        assert(ran(done).push((n - 1) as usize) =~= Seq::new(n as nat, |i: int| i as usize));
    } else {
        assert(ran(steps) =~= Seq::new(0, |i: int| i as usize));
    }
}

proof fn lemma_layers_swapped(steps: Seq<TokenStep>, c: TokenSetup, links: Seq<LayerLinks>, n: int)
    requires
        0 <= n <= usize::MAX,
        layers_steps(steps, c, links, n).1 is None,
    ensures
        taken(layers_steps(steps, c, links, n).0, TokenStep::SwapResidual) == taken(
            steps,
            TokenStep::SwapResidual,
        ) + n,
    decreases n,
{
    broadcast use lemma_push_taken;

    if n > 0 {
        lemma_layers_swapped(steps, c, links, n - 1);
        let done = layers_steps(steps, c, links, n - 1).0;
        let entered = enter_steps(done, c, links[n - 1], n - 1);
        assert(taken(entered, TokenStep::SwapResidual) == taken(done, TokenStep::SwapResidual));
    }
}

/// A token whose inputs are all there runs every layer exactly once, in order.
pub proof fn every_layer_runs_once_in_order(
    c: TokenSetup,
    links: Seq<LayerLinks>,
    pos: u32,
    slot: u32,
    seq: u32,
)
    requires
        links.len() <= usize::MAX,
        token_plan(c, links, pos, slot, seq).1 is None,
    ensures
        ran(token_plan(c, links, pos, slot, seq).0) == Seq::new(links.len(), |i: int| i as usize),
{
    broadcast use lemma_push_ran;

    let n = links.len() as int;
    let opening = opening_steps(c, n, pos, slot, seq);
    let head = step_if(Seq::empty(), c.dump_residual, TokenStep::DumpResidual { layer: 0 }).push(
        TokenStep::Publish { pos, slot },
    );
    lemma_ahead_ran(head, n, seq);
    assert(ran(Seq::<TokenStep>::empty()) == Seq::<usize>::empty());
    lemma_layers_ran(opening, c, links, n);
}

/// A lane that is issued ahead of a token is held back by what earlier tokens left
/// in its signal: it waits for this token's picks.
pub proof fn no_earlier_signal_lets_a_lane_pass(
    c: TokenSetup,
    links: Seq<LayerLinks>,
    pos: u32,
    slot: u32,
    before: u32,
    signal: u32,
    i: int,
)
    requires
        before < u32::MAX,
        signal <= before,
        0 <= i < token_plan(c, links, pos, slot, next_seq(before)).0.len(),
        token_plan(c, links, pos, slot, next_seq(before)).0[i] is IssueAhead,
    ensures
        token_plan(c, links, pos, slot, next_seq(before)).0[i]->IssueAhead_seq == next_seq(before),
        signal < token_plan(c, links, pos, slot, next_seq(before)).0[i]->IssueAhead_seq,
{
    let n = links.len() as int;
    let seq = next_seq(before);
    let opening = opening_steps(c, n, pos, slot, seq);
    let head = step_if(Seq::empty(), c.dump_residual, TokenStep::DumpResidual { layer: 0 }).push(
        TokenStep::Publish { pos, slot },
    );
    assert(waits_for(head, seq)) by {
        broadcast use lemma_push_waits;

        assert(waits_for(Seq::empty(), seq));
    }
    lemma_ahead_waits(head, n, seq);
    lemma_layers_wait(opening, c, links, n, seq);
    assert(waits_for(token_plan(c, links, pos, slot, seq).0, seq)) by {
        broadcast use lemma_push_waits;

    }
}

/// What is issued ahead waits for `seq`.
spec fn waits_for(steps: Seq<TokenStep>, seq: u32) -> bool {
    forall|i: int|
        0 <= i < steps.len() ==> (#[trigger] steps[i] matches TokenStep::IssueAhead { seq: s, .. } ==> s == seq)
}

broadcast proof fn lemma_push_waits(steps: Seq<TokenStep>, step: TokenStep, seq: u32)
    requires
        waits_for(steps, seq),
        step matches TokenStep::IssueAhead { seq: s, .. } ==> s == seq,
    ensures
        #[trigger] waits_for(steps.push(step), seq),
{
    assert forall|i: int| 0 <= i < steps.push(step).len() implies (
    #[trigger] steps.push(step)[i] matches TokenStep::IssueAhead { seq: s, .. } ==> s == seq) by {
        if i < steps.len() {
            assert(steps.push(step)[i] == steps[i]);
        }
    }
}

proof fn lemma_ahead_waits(steps: Seq<TokenStep>, n: int, seq: u32)
    requires
        waits_for(steps, seq),
    ensures
        waits_for(ahead_steps(steps, n, seq), seq),
    decreases n,
{
    broadcast use lemma_push_waits;

    if n > 0 {
        lemma_ahead_waits(steps, n - 1, seq);
    }
}

proof fn lemma_layers_wait(steps: Seq<TokenStep>, c: TokenSetup, links: Seq<LayerLinks>, n: int, seq: u32)
    requires
        waits_for(steps, seq),
    ensures
        waits_for(layers_steps(steps, c, links, n).0, seq),
    decreases n,
{
    broadcast use lemma_push_waits;

    if n > 0 {
        lemma_layers_wait(steps, c, links, n - 1, seq);
    }
}

/// A token swaps its two residual buffers an even number of times, so every token
/// finds them as the one before did.
pub proof fn the_residual_buffers_come_back(
    c: TokenSetup,
    links: Seq<LayerLinks>,
    pos: u32,
    slot: u32,
    seq: u32,
)
    requires
        links.len() <= usize::MAX,
        token_plan(c, links, pos, slot, seq).1 is None,
    ensures
        taken(token_plan(c, links, pos, slot, seq).0, TokenStep::SwapResidual) % 2 == 0,
{
    broadcast use lemma_push_taken;

    let n = links.len() as int;
    let opening = opening_steps(c, n, pos, slot, seq);
    let head = step_if(Seq::empty(), c.dump_residual, TokenStep::DumpResidual { layer: 0 }).push(
        TokenStep::Publish { pos, slot },
    );
    lemma_ahead_taken(head, n, seq, TokenStep::SwapResidual);
    lemma_layers_swapped(opening, c, links, n);
}

/// Moves the store of layer `from` to layer `to`.
pub fn lend(layers: &mut Vec<LayerState>, from: usize, to: usize)
    requires
        from < old(layers).len(),
        to < old(layers).len(),
    ensures
        final(layers)@ == lent(old(layers)@, from as int, to as int),
{
    let mut a = layers[from];
    let store = a.compressor;
    a.compressor = None;
    layers.set(from, a);
    let mut b = layers[to];
    b.compressor = store;
    layers.set(to, b);
}

/// The layers after the store of one was moved to another.
pub open spec fn lent(layers: Seq<LayerState>, from: int, to: int) -> Seq<LayerState> {
    let without = layers.update(from, LayerState { compressor: None, ..layers[from] });
    without.update(to, LayerState { compressor: layers[from].compressor, ..without[to] })
}

/// A store that was lent to a layer without one, and given back after that layer
/// ran, is where it was. Neither it nor any other layer's store was lost.
pub proof fn a_lent_store_comes_back(
    layers: Seq<LayerState>,
    from: int,
    to: int,
    run: LayerState,
)
    requires
        0 <= from < layers.len(),
        0 <= to < layers.len(),
        from != to,
        layers[to].compressor is None,
    ensures
        ({
            let ran = lent(layers, from, to).update(to, run);
            let back = lent(ran, to, from);
            &&& back[from] == (LayerState { compressor: run.compressor, ..layers[from] })
            &&& back[to] == (LayerState { compressor: None, ..run })
            &&& forall|i: int|
                0 <= i < layers.len() && i != from && i != to ==> #[trigger] back[i] == layers[i]
        }),
{
}

/// Was the store of a layer's source left with the layer?
pub open spec fn left_behind(layers: Seq<LayerState>, link: LayerLinks, l: int) -> bool {
    match link.kv_source {
        Some(from) => from < layers.len() && from != l && layers[l].compressor is Some
            && layers[from as int].compressor is None,
        None => false,
    }
}

/// The layers, those below `n` having given back the stores left with them.
pub open spec fn restored(layers: Seq<LayerState>, links: Seq<LayerLinks>, n: int) -> Seq<LayerState>
    decreases n,
{
    if n <= 0 {
        layers
    } else {
        let before = restored(layers, links, n - 1);
        if left_behind(before, links[n - 1], n - 1) {
            lent(before, n - 1, links[n - 1].kv_source->0 as int)
        } else {
            before
        }
    }
}

/// Gives back the stores that a token which ended early left with the layers that
/// reuse them.
pub fn restore_compressor_lending(layers: &mut Vec<LayerState>, links: &Vec<LayerLinks>)
    requires
        old(layers).len() == links.len(),
    ensures
        final(layers)@ == restored(old(layers)@, links@, links.len() as int),
{
    let n: usize = links.len();
    let mut l: usize = 0;
    while l < n
        invariant
            l <= n,
            n == links.len(),
            layers.len() == n,
            layers@ == restored(old(layers)@, links@, l as int),
        decreases n - l,
    {
        if let Some(from) = links[l].kv_source {
            if from < n && from != l {
                let here = layers[l].compressor;
                let there = layers[from].compressor;
                if here.is_some() && there.is_none() {
                    lend(layers, l, from);
                }
            }
        }
        l = l + 1;
    }
}

/// Every layer that reuses a store of another has none of its own.
pub open spec fn stores_at_home(layers: Seq<LayerState>, links: Seq<LayerLinks>) -> bool {
    forall|l: int|
        0 <= l < layers.len() && (#[trigger] links[l]).kv_source is Some
            ==> layers[l].compressor is None
}

proof fn lemma_restore_idle(layers: Seq<LayerState>, links: Seq<LayerLinks>, n: int)
    requires
        0 <= n <= layers.len(),
        layers.len() == links.len(),
        forall|l: int|
            0 <= l < n && (#[trigger] links[l]).kv_source is Some ==> layers[l].compressor is None,
    ensures
        restored(layers, links, n) == layers,
    decreases n,
{
    if n > 0 {
        lemma_restore_idle(layers, links, n - 1);
        assert(links[n - 1].kv_source is Some ==> layers[n - 1].compressor is None);
    }
}

/// A token that ended with a store still lent leaves nothing lost: the restored
/// layers are those from before the loan. Where nothing is lent, nothing changes.
pub proof fn a_store_left_behind_is_restored(
    layers: Seq<LayerState>,
    links: Seq<LayerLinks>,
    from: int,
    to: int,
)
    requires
        layers.len() == links.len(),
        layers.len() <= usize::MAX,
        stores_at_home(layers, links),
        0 <= from < layers.len(),
        0 <= to < layers.len(),
        from != to,
        links[to].kv_source == Some(from as usize),
        links[from].kv_source is None,
    ensures
        restored(layers, links, links.len() as int) == layers,
        restored(lent(layers, from, to), links, links.len() as int) == layers,
{
    lemma_restore_idle(layers, links, links.len() as int);
    assert(layers[to].compressor is None);
    if layers[from].compressor is None {
        assert(lent(layers, from, to) =~= layers);
    } else {
        let lost = lent(layers, from, to);
        lemma_restore_idle(lost, links, to);
        assert(left_behind(lost, links[to], to));
        assert(lent(lost, to, from) =~= layers);
        lemma_restore_from(lost, layers, links, to + 1, links.len() as int);
    }
}

/// What is at home after some layers stays so.
proof fn lemma_restore_from(
    start: Seq<LayerState>,
    home: Seq<LayerState>,
    links: Seq<LayerLinks>,
    at: int,
    n: int,
)
    requires
        0 <= at <= n,
        n <= home.len(),
        home.len() == links.len(),
        stores_at_home(home, links),
        restored(start, links, at) == home,
    ensures
        restored(start, links, n) == home,
    decreases n - at,
{
    if at < n {
        assert(links[at].kv_source is Some ==> home[at].compressor is None);
        assert(restored(start, links, at + 1) == home);
        lemma_restore_from(start, home, links, at + 1, n);
    }
}

/// The state with which a token begins that follows one of sequence `seq`: no rows
/// are gathered yet.
pub fn begin_token(seq: u32) -> (t: TokenState)
    ensures
        t.seq == seq,
        t.gather_src == -1,
        t.gather_rows == 0,
        !t.engram_ready,
{
    TokenState { engram_ready: false, gather_src: -1, gather_rows: 0, seq }
}

/// Forgets what was gathered, between tokens.
pub fn forget_gather(t: &mut TokenState)
    ensures
        *final(t) == (TokenState { gather_src: -1i32, ..*old(t) }),
{
    t.gather_src = -1;
}

/// Accepts the engram rows of the next layer that needs some.
pub fn stage_engram_rows(t: &mut TokenState, len: usize, engram_in: usize) -> (r: bool)
    ensures
        r == (len == engram_in),
        *final(t) == (if r {
            TokenState { engram_ready: true, ..*old(t) }
        } else {
            *old(t)
        }),
{
    if len != engram_in {
        return false;
    }
    t.engram_ready = true;
    true
}

/// Is the input as long as the residual stream?
pub fn check_input(len: usize) -> (r: Result<(), TokenError>)
    ensures
        r == (if len == HC_DIM {
            Ok::<(), TokenError>(())
        } else {
            Err(TokenError::InputLength)
        }),
{
    if len == HC_DIM as usize {
        Ok(())
    } else {
        Err(TokenError::InputLength)
    }
}

/// Are the second device's parts issued before the token? `switch` asks for it; it
/// yields to dumps, to experts on the first device, and to one device at a time.
pub fn issues_ahead(switch: bool, mode: ExecMode, dumps: bool, hot: bool) -> (r: bool)
    ensures
        r == (switch && mode == ExecMode::HetParallel && !dumps && !hot),
{
    switch && mode == ExecMode::HetParallel && !dumps && !hot
}

/// How the layers of a token run: experts from the pager come first, whether or
/// not the second device's parts were issued before.
pub fn layer_path(paged: bool, ahead: bool) -> (r: LayerPath)
    ensures
        r == (if paged {
            LayerPath::Paged
        } else if ahead {
            LayerPath::Preissued
        } else {
            LayerPath::Joined
        }),
{
    if paged {
        LayerPath::Paged
    } else if ahead {
        LayerPath::Preissued
    } else {
        LayerPath::Joined
    }
}

/// Microseconds between the end of one token and the start of the next, of
/// which 0 means that there was none.
pub fn gap_us(last_end_ns: u64, now_ns: u64) -> (r: u64)
    ensures
        r == (if last_end_ns == 0 || now_ns < last_end_ns {
            0int
        } else {
            (now_ns - last_end_ns) / 1000
        }),
{
    if last_end_ns == 0 {
        0
    } else {
        now_ns.saturating_sub(last_end_ns) / 1000
    }
}

/// The window in which the link to the other machine is polled; `None` leaves it
/// as it is. A window of 0 for the decode phase turns the switch off.
pub fn phase_busy_poll(decode: bool, decode_us: Option<u32>, batch_us: Option<u32>) -> (r: Option<u32>)
    ensures
        r == (match decode_us {
            Some(0) => None::<u32>,
            _ => if decode {
                Some(match decode_us {
                    Some(us) => us,
                    None => 3000,
                })
            } else {
                Some(match batch_us {
                    Some(us) => us,
                    None => 50,
                })
            },
        }),
{
    let decode_us: u32 = match decode_us {
        Some(us) => us,
        None => 3000,
    };
    if decode_us == 0 {
        return None;
    }
    if decode {
        Some(decode_us)
    } else {
        Some(
            match batch_us {
                Some(us) => us,
                None => 50,
            },
        )
    }
}

/// The device that is current, as far as it is known.
pub struct CurrentDevice {
    id: Option<i32>,
}

impl View for CurrentDevice {
    type V = Option<i32>;

    closed spec fn view(&self) -> Option<i32> {
        self.id
    }
}

impl CurrentDevice {
    /// Nothing is known yet.
    pub fn new() -> (r: CurrentDevice)
        ensures
            r@ is None,
    {
        CurrentDevice { id: None }
    }

    /// Must the device be made current before work is issued to it?
    pub fn must_switch(&self, dev: i32) -> (r: bool)
        ensures
            r == (self@ != Some(dev)),
    {
        match self.id {
            Some(id) => id != dev,
            None => true,
        }
    }

    /// The device was made current.
    pub fn switched(&mut self, dev: i32)
        ensures
            final(self)@ == Some(dev),
    {
        self.id = Some(dev);
    }

    /// Something else may have changed the device.
    pub fn invalidate_device_cache(&mut self)
        ensures
            final(self)@ is None,
    {
        self.id = None;
    }
}

/// What was measured of a token, in the units that it was measured in.
#[derive(Debug, Clone, Copy, PartialEq, Eq, Structural)]
pub struct TokenTimes {
    pub total_us: u64,
    pub host_us: u64,
    pub dgpu_busy_us: u64,
    pub igpu_busy_us: u64,
    /// Time from the token's start to the summary.
    pub reported_us: u64,
    pub sel_sync_ns: u64,
    pub ensure_ns: u64,
    pub remote_rtt_ns: u64,
    pub remote_wait_ns: u64,
    pub remote_srv_ns: u64,
    pub engram_stage_ns: u64,
}

/// A token's timing summary.
#[derive(Debug, Clone, Copy, PartialEq, Eq, Structural)]
pub struct TokenTiming {
    pub total_us: u64,
    pub dgpu_idle_us: u64,
    pub igpu_idle_us: u64,
    pub peer_bytes: u64,
    pub sync_us: u64,
    pub post_us: u64,
    pub sel_sync_us: u64,
    pub pager_ensure_us: u64,
    pub pager_read_us: u64,
    pub pager_h2d_us: u64,
    pub pager_misses: u64,
    pub remote_rtt_us: u64,
    pub remote_wait_us: u64,
    pub remote_srv_us: u64,
    pub engram_stage_us: u64,
}

/// What is left of `a` after `b`.
pub open spec fn rest_of(a: u64, b: u64) -> int {
    if a < b {
        0
    } else {
        a - b
    }
}

/// Bytes that a token moves between the devices: the input and the sum of every
/// layer's feed-forward half.
pub open spec fn token_peer_bytes() -> int {
    N_LAYER * 2 * N_EMBD * 4
}

/// Summarises a token. `paged` is what the pager counted during it.
pub fn token_timing(t: &TokenTimes, paged: &PagerCounters) -> (r: TokenTiming)
    ensures
        r.total_us == t.total_us,
        r.dgpu_idle_us == rest_of(t.total_us, t.dgpu_busy_us),
        r.igpu_idle_us == rest_of(t.total_us, t.igpu_busy_us),
        r.peer_bytes == token_peer_bytes(),
        r.sync_us == rest_of(t.total_us, t.host_us),
        r.post_us == rest_of(t.reported_us, t.total_us),
        r.sel_sync_us == t.sel_sync_ns / 1000,
        r.pager_ensure_us == t.ensure_ns / 1000,
        r.pager_read_us == paged.decode_read_ns / 1000,
        r.pager_h2d_us == paged.decode_h2d_ns / 1000,
        r.pager_misses == paged.decode_misses,
        r.remote_rtt_us == t.remote_rtt_ns / 1000,
        r.remote_wait_us == t.remote_wait_ns / 1000,
        r.remote_srv_us == t.remote_srv_ns / 1000,
        r.engram_stage_us == t.engram_stage_ns / 1000,
{
    let layers: u64 = N_LAYER as u64;
    let width: u64 = N_EMBD as u64;
    assert(layers * 2 * width == 409600 && layers * 2 * width * 4 == 1638400) by (nonlinear_arith)
        requires
            layers == 40,
            width == 5120,
    ;
    TokenTiming {
        total_us: t.total_us,
        dgpu_idle_us: t.total_us.saturating_sub(t.dgpu_busy_us),
        igpu_idle_us: t.total_us.saturating_sub(t.igpu_busy_us),
        peer_bytes: layers * 2 * width * 4,
        sync_us: t.total_us.saturating_sub(t.host_us),
        post_us: t.reported_us.saturating_sub(t.total_us),
        sel_sync_us: t.sel_sync_ns / 1000,
        pager_ensure_us: t.ensure_ns / 1000,
        pager_read_us: paged.decode_read_ns / 1000,
        pager_h2d_us: paged.decode_h2d_ns / 1000,
        pager_misses: paged.decode_misses,
        remote_rtt_us: t.remote_rtt_ns / 1000,
        remote_wait_us: t.remote_wait_ns / 1000,
        remote_srv_us: t.remote_srv_ns / 1000,
        engram_stage_us: t.engram_stage_ns / 1000,
    }
}

} // verus!
