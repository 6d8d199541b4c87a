//! The prompt cache of a runner.
//!
//! A cache has slots that keep the inputs of earlier requests.  A new prompt
//! is given the slot whose inputs share the longest prefix with it, so that
//! only the rest of the prompt needs processing.  When a slot's context is
//! full, the oldest inputs after a kept prefix are discarded.

use vstd::prelude::*;

verus! {

/// One input of a prompt: a token, an embedding (the bit patterns of its
/// `f32` values; see `f32_bits_eq` for how they compare), or a multimodal
/// item by its hash.
#[derive(Debug, Clone)]
pub enum Input {
    Token(i32),
    Embed(Vec<u32>),
    Multimodal(u64),
}

/// The value an input stands for.
pub enum InputV {
    Token(i32),
    Embed(Seq<u32>),
    Multimodal(u64),
}

impl View for Input {
    type V = InputV;

    open spec fn view(&self) -> InputV {
        match self {
            Input::Token(t) => InputV::Token(*t),
            Input::Embed(e) => InputV::Embed(e@),
            Input::Multimodal(h) => InputV::Multimodal(*h),
        }
    }
}

pub open spec fn inputs_view(s: Seq<Input>) -> Seq<InputV> {
    s.map_values(|x: Input| x@)
}

/// Whether the `f32` values with bit patterns `a` and `b` are equal, as
/// `f32 ==` compares them: a NaN equals nothing, the two zeros are equal,
/// and other values are equal when their patterns are.
pub open spec fn f32_bits_eq(a: u32, b: u32) -> bool {
    &&& (a & 0x7fff_ffffu32) <= 0x7f80_0000u32
    &&& (b & 0x7fff_ffffu32) <= 0x7f80_0000u32
    &&& (a == b || ((a & 0x7fff_ffffu32) == 0 && (b & 0x7fff_ffffu32) == 0))
}

/// Whether two inputs are equal, as `==` on them compares: tokens and
/// multimodal hashes by value, embeddings value by value as `f32`s.
pub open spec fn input_same(x: InputV, y: InputV) -> bool {
    match (x, y) {
        (InputV::Token(a), InputV::Token(b)) => a == b,
        (InputV::Embed(a), InputV::Embed(b)) => a.len() == b.len() && forall|i: int|
            0 <= i < a.len() ==> f32_bits_eq(#[trigger] a[i], b[i]),
        (InputV::Multimodal(a), InputV::Multimodal(b)) => a == b,
        _ => false,
    }
}

/// The length of the longest common prefix of `a` and `b`, inputs
/// compared with `input_same`.
pub open spec fn common_prefix(a: Seq<InputV>, b: Seq<InputV>) -> nat
    decreases a.len(),
{
    if a.len() == 0 || b.len() == 0 || !input_same(a[0], b[0]) {
        0
    } else {
        1 + common_prefix(a.drop_first(), b.drop_first())
    }
}

/// `common_prefix` is where the two sequences first differ.
pub proof fn lemma_common_prefix(a: Seq<InputV>, b: Seq<InputV>)
    ensures
        common_prefix(a, b) <= a.len(),
        common_prefix(a, b) <= b.len(),
        forall|i: int| 0 <= i < common_prefix(a, b) ==> input_same(#[trigger] a[i], b[i]),
        common_prefix(a, b) < a.len() && common_prefix(a, b) < b.len() ==> !input_same(
            a[common_prefix(a, b) as int],
            b[common_prefix(a, b) as int],
        ),
    decreases a.len(),
{
    if !(a.len() == 0 || b.len() == 0 || !input_same(a[0], b[0])) {
        let (a1, b1) = (a.drop_first(), b.drop_first());
        lemma_common_prefix(a1, b1);
        let k: int = common_prefix(a1, b1) as int;
        assert forall|i: int| 0 <= i < k + 1 implies input_same(#[trigger] a[i], b[i]) by {
            if i > 0 {
                assert(a[i] == a1[i - 1] && b[i] == b1[i - 1]);
            }
        }
        if k < a1.len() && k < b1.len() {
            assert(a[k + 1] == a1[k]);
            assert(b[k + 1] == b1[k]);
        }
    }
}

fn f32_bits_eq_exec(a: u32, b: u32) -> (r: bool)
    ensures
        r == f32_bits_eq(a, b),
{
    let ma = a & 0x7fff_ffffu32;
    let mb = b & 0x7fff_ffffu32;
    ma <= 0x7f80_0000u32 && mb <= 0x7f80_0000u32 && (a == b || (ma == 0 && mb == 0))
}

fn embeds_eq(a: &Vec<u32>, b: &Vec<u32>) -> (r: bool)
    ensures
        r == (a@.len() == b@.len() && forall|i: int| 0 <= i < a@.len() ==> f32_bits_eq(#[trigger] a@[i], b@[i])),
{
    if a.len() != b.len() {
        return false;
    }
    let mut i: usize = 0;
    while i < a.len()
        invariant
            i <= a@.len(),
            a@.len() == b@.len(),
            forall|j: int| 0 <= j < i ==> f32_bits_eq(#[trigger] a@[j], b@[j]),
        decreases a@.len() - i,
    {
        if !f32_bits_eq_exec(a[i], b[i]) {
            return false;
        }
        i += 1;
    }
    true
}

fn input_eq(x: &Input, y: &Input) -> (r: bool)
    ensures
        r == input_same(x@, y@),
{
    match (x, y) {
        (Input::Token(a), Input::Token(b)) => *a == *b,
        (Input::Embed(a), Input::Embed(b)) => embeds_eq(a, b),
        (Input::Multimodal(a), Input::Multimodal(b)) => *a == *b,
        _ => false,
    }
}

impl PartialEq for Input {
    fn eq(&self, other: &Self) -> (r: bool) {
        input_eq(self, other)
    }
}

impl vstd::std_specs::cmp::PartialEqSpecImpl for Input {
    open spec fn obeys_eq_spec() -> bool {
        true
    }

    open spec fn eq_spec(&self, other: &Input) -> bool {
        input_same(self@, other@)
    }
}

fn clone_input(x: &Input) -> (y: Input)
    ensures
        y@ == x@,
{
    match x {
        Input::Token(t) => Input::Token(*t),
        Input::Embed(e) => {
            let c = e.clone();
            assert(c@ =~= e@);
            Input::Embed(c)
        },
        Input::Multimodal(h) => Input::Multimodal(*h),
    }
}

/// A copy of `s[lo..hi]`.
fn clone_inputs(s: &[Input], lo: usize, hi: usize) -> (out: Vec<Input>)
    requires
        lo <= hi <= s@.len(),
    ensures
        inputs_view(out@) == inputs_view(s@).subrange(lo as int, hi as int),
{
    let mut out: Vec<Input> = Vec::new();
    let mut i = lo;
    while i < hi
        invariant
            lo <= i <= hi <= s@.len(),
            inputs_view(out@) == inputs_view(s@).subrange(lo as int, i as int),
        decreases hi - i,
    {
        let ghost before = out@;
        out.push(clone_input(&s[i]));
        assert(inputs_view(out@) =~= inputs_view(before).push(s@[i as int]@));
        assert(inputs_view(s@).subrange(lo as int, i + 1) =~= inputs_view(s@).subrange(
            lo as int,
            i as int,
        ).push(s@[i as int]@));
        i += 1;
    }
    out
}

/// One slot of the cache.
#[derive(Debug, Clone)]
pub struct InputCacheSlot {
    pub id: usize,
    pub inputs: Vec<Input>,
    pub in_use: bool,
    /// When the slot was last given out, in nanoseconds since the Unix
    /// epoch.
    pub last_used: u128,
}

/// A call handed to a cache backend; a removal also records whether the
/// backend reported success.
#[derive(Debug, Clone, Copy, PartialEq, Eq)]
pub enum KvCall {
    Remove { slot: usize, begin: i32, end: i32, ok: bool },
    CopyPrefix { src: usize, dst: usize, len: i32 },
    Shift { slot: usize, start: i32, end: i32, delta: i32 },
}

/// What a cache backend does with the key-value data of the slots.  It is
/// implemented by the model backend.  Its model is the calls handed to it
/// so far and whether it can move entries; what a call does to the data,
/// and whether a removal succeeds, is the backend's own.
pub trait KvCache {
    /// The calls handed to the backend so far, in order.  A verified
    /// backend gives its own; the default stands for none and no verified
    /// backend can keep it, since every call must add to it.
    open spec fn calls(&self) -> Seq<KvCall> {
        Seq::empty()
    }

    /// Whether the backend can move entries within a slot; by default it
    /// cannot.
    open spec fn spec_can_shift(&self) -> bool {
        false
    }

    /// Removes the entries of `slot` from `begin` to `end` (`-1`: to the end).
    fn remove(&mut self, slot: usize, begin: i32, end: i32) -> (r: Result<(), String>)
        ensures
            final(self).calls() == old(self).calls().push(
                KvCall::Remove { slot, begin, end, ok: r is Ok },
            ),
            final(self).spec_can_shift() == old(self).spec_can_shift(),
    ;

    /// Copies the first `len` entries of slot `src` to slot `dst`.
    fn copy_prefix(&mut self, src: usize, dst: usize, len: i32)
        ensures
            final(self).calls() == old(self).calls().push(KvCall::CopyPrefix { src, dst, len }),
            final(self).spec_can_shift() == old(self).spec_can_shift(),
    ;

    /// Whether entries can be moved within a slot.
    fn can_shift(&self) -> (r: bool)
        ensures
            r == self.spec_can_shift(),
    ;

    /// Moves the entries of `slot` from `start` to `end` by `delta`.
    fn shift(&mut self, slot: usize, start: i32, end: i32, delta: i32)
        ensures
            final(self).calls() == old(self).calls().push(
                KvCall::Shift { slot, start, end, delta },
            ),
            final(self).spec_can_shift() == old(self).spec_can_shift(),
    ;
}

/// A cache with no backend behind it: every removal succeeds, and entries
/// cannot be moved.
pub struct NoKvCache {
    log: Ghost<Seq<KvCall>>,
}

impl NoKvCache {
    /// A backend that was handed no call yet.
    pub fn new() -> (c: Self)
        ensures
            c.calls() == Seq::<KvCall>::empty(),
            !c.spec_can_shift(),
    {
        NoKvCache { log: Ghost(Seq::empty()) }
    }
}

impl KvCache for NoKvCache {
    closed spec fn calls(&self) -> Seq<KvCall> {
        self.log@
    }

    open spec fn spec_can_shift(&self) -> bool {
        false
    }

    fn remove(&mut self, slot: usize, begin: i32, end: i32) -> (r: Result<(), String>)
        ensures
            r is Ok,
    {
        proof {
            self.log@ = self.log@.push(KvCall::Remove { slot, begin, end, ok: true });
        }
        Ok(())
    }

    fn copy_prefix(&mut self, src: usize, dst: usize, len: i32) {
        proof {
            self.log@ = self.log@.push(KvCall::CopyPrefix { src, dst, len });
        }
    }

    fn can_shift(&self) -> (r: bool) {
        false
    }

    fn shift(&mut self, slot: usize, start: i32, end: i32, delta: i32) {
        proof {
            self.log@ = self.log@.push(KvCall::Shift { slot, start, end, delta });
        }
    }
}

/// The prompt cache: its context size, its slots, whether it is shared by
/// several users, and its backend.
pub struct InputCache<C: KvCache> {
    pub num_ctx: usize,
    pub slots: Vec<InputCacheSlot>,
    pub multi_user_cache: bool,
    pub cache: Option<C>,
}

/// The slot a prompt could not be given.
pub open spec fn no_slot_message() -> Seq<char> {
    "no available cache slots"@
}

/// The inputs of slot `j`.
pub open spec fn slot_inputs(slots: Seq<InputCacheSlot>, j: int) -> Seq<InputV> {
    inputs_view(slots[j].inputs@)
}

/// How many inputs to discard from a slot of `input_len` inputs keeping
/// the first `num_keep`: enough to free half of what is not kept (at least
/// one), less what is already free.
pub open spec fn spec_shift_discard(num_ctx: int, input_len: int, num_keep: int) -> int {
    let target = (num_ctx - num_keep) / 2;
    let target_free = if target < 1 {
        1
    } else {
        target
    };
    let discard = target_free - (num_ctx - input_len);
    if discard < 0 {
        0
    } else {
        discard
    }
}

/// The free slot with the longest common prefix with `prompt` among the
/// first `n` slots (the first such), as its prefix length and index.
pub open spec fn longest_free_upto(slots: Seq<InputCacheSlot>, prompt: Seq<InputV>, n: int) -> Option<
    (nat, nat),
>
    decreases n,
{
    if n <= 0 {
        None
    } else {
        let prev = longest_free_upto(slots, prompt, n - 1);
        if slots[n - 1].in_use {
            prev
        } else {
            let c = common_prefix(slot_inputs(slots, n - 1), prompt);
            match prev {
                None => Some((c, (n - 1) as nat)),
                Some((pc, _)) => if c > pc {
                    Some((c, (n - 1) as nat))
                } else {
                    prev
                },
            }
        }
    }
}

/// The slot `find_longest_cache_slot` picks and its prefix length.
pub open spec fn spec_find_longest(slots: Seq<InputCacheSlot>, prompt: Seq<InputV>) -> Option<
    (nat, nat),
> {
    match longest_free_upto(slots, prompt, slots.len() as int) {
        Some((c, i)) => Some((i, c)),
        None => None,
    }
}

/// The longest common prefix with `prompt` over the first `n` slots, in
/// use or not, and the first slot that has it; no slot while it is 0.
pub open spec fn best_prefix_upto(slots: Seq<InputCacheSlot>, prompt: Seq<InputV>, n: int) -> (
    nat,
    Option<nat>,
)
    decreases n,
{
    if n <= 0 {
        (0, None)
    } else {
        let prev = best_prefix_upto(slots, prompt, n - 1);
        let c = common_prefix(slot_inputs(slots, n - 1), prompt);
        if c > prev.0 {
            (c, Some((n - 1) as nat))
        } else {
            prev
        }
    }
}

/// The free slot used least recently among the first `n` (the first such).
pub open spec fn oldest_free_upto(slots: Seq<InputCacheSlot>, n: int) -> Option<nat>
    decreases n,
{
    if n <= 0 {
        None
    } else {
        let prev = oldest_free_upto(slots, n - 1);
        if slots[n - 1].in_use {
            prev
        } else {
            match prev {
                None => Some((n - 1) as nat),
                Some(o) => if slots[n - 1].last_used < slots[o as int].last_used {
                    Some((n - 1) as nat)
                } else {
                    prev
                },
            }
        }
    }
}

/// The slot a shared cache gives a prompt, and the prefix length it can
/// reuse: the slot holding the longest prefix when that slot is free and
/// holds nothing more; otherwise the free slot used least recently.
pub open spec fn spec_find_best(slots: Seq<InputCacheSlot>, prompt: Seq<InputV>) -> Option<(nat, nat)> {
    let (l, li) = best_prefix_upto(slots, prompt, slots.len() as int);
    match li {
        None => None,
        Some(i) => if l == slot_inputs(slots, i as int).len() && !slots[i as int].in_use {
            Some((i, l))
        } else {
            match oldest_free_upto(slots, slots.len() as int) {
                None => None,
                Some(o) => Some((o, l)),
            }
        },
    }
}

/// The prefix a shared cache copies when it gives a prompt another slot
/// than the one holding the longest prefix: target slot, source slot and
/// length.
pub open spec fn best_copy(slots: Seq<InputCacheSlot>, prompt: Seq<InputV>) -> Option<(nat, nat, nat)> {
    let (l, li) = best_prefix_upto(slots, prompt, slots.len() as int);
    match li {
        None => None,
        Some(i) => if l == slot_inputs(slots, i as int).len() && !slots[i as int].in_use {
            None
        } else {
            match oldest_free_upto(slots, slots.len() as int) {
                None => None,
                Some(o) => if l > 0 && i != o {
                    Some((o, i, l))
                } else {
                    None
                },
            }
        },
    }
}

/// The calls a shift of slot `slot` hands to a backend when it keeps
/// `keep` of `len` inputs and discards `d` after them, given whether the
/// backend can shift, how its removal of the discarded entries answers
/// (`remove_ok`) and how a clearing removal answers (`clear_ok`, which
/// nothing depends on): a backend that cannot shift has the slot cleared;
/// one that can is told to remove the discarded entries and, when that
/// succeeds, to move the rest back by `d`, else to clear the slot.
pub open spec fn shift_calls(
    slot: usize,
    keep: usize,
    d: usize,
    len: usize,
    can_shift: bool,
    remove_ok: bool,
    clear_ok: bool,
) -> Seq<KvCall> {
    let clear = KvCall::Remove { slot, begin: 0i32, end: -1i32, ok: clear_ok };
    if !can_shift {
        seq![clear]
    } else {
        let rm = KvCall::Remove { slot, begin: keep as i32, end: (keep + d) as i32, ok: remove_ok };
        if remove_ok {
            seq![rm, KvCall::Shift { slot, start: (keep + d) as i32, end: len as i32, delta: (0 - d) as i32 }]
        } else {
            seq![rm, clear]
        }
    }
}

/// Whether the first call that `after` got beyond the calls of `before` is
/// a removal the backend reported as a success.
pub open spec fn first_removal_ok<C: KvCache>(before: C, after: Option<C>) -> bool {
    match after {
        Some(c1) => c1.calls().len() > before.calls().len() && (match c1.calls()[before.calls().len() as int] {
            KvCall::Remove { ok, .. } => ok,
            _ => false,
        }),
        None => false,
    }
}

/// The calls a shared cache hands to a backend when it gives a prompt
/// another slot than the one holding the longest prefix: clear the target
/// slot (however the backend answers), then copy the prefix into it.
pub open spec fn copy_calls(slots: Seq<InputCacheSlot>, prompt: Seq<InputV>, clear_ok: bool) -> Seq<KvCall> {
    match best_copy(slots, prompt) {
        Some((o, src, l)) => seq![
            KvCall::Remove { slot: o as usize, begin: 0i32, end: -1i32, ok: clear_ok },
            KvCall::CopyPrefix { src: src as usize, dst: o as usize, len: l as i32 },
        ],
        None => Seq::empty(),
    }
}

/// The backend after some calls: when there is one, its calls so far
/// followed by `calls`; no backend stays none.
pub open spec fn backend_after<C: KvCache>(before: Option<C>, after: Option<C>, calls: Seq<KvCall>) -> bool {
    match before {
        None => after is None,
        Some(c0) => after matches Some(c1) && c1.calls() == c0.calls() + calls && c1.spec_can_shift()
            == c0.spec_can_shift(),
    }
}

/// Two slots agree on everything.
pub open spec fn same_slot(a: InputCacheSlot, b: InputCacheSlot) -> bool {
    &&& a.id == b.id
    &&& inputs_view(a.inputs@) == inputs_view(b.inputs@)
    &&& a.in_use == b.in_use
    &&& a.last_used == b.last_used
}

proof fn lemma_oldest_free(slots: Seq<InputCacheSlot>, n: int)
    requires
        0 <= n <= slots.len(),
    ensures
        oldest_free_upto(slots, n) matches Some(o) ==> o < n && !slots[o as int].in_use,
    decreases n,
{
    if n > 0 {
        lemma_oldest_free(slots, n - 1);
    }
}

proof fn lemma_best_prefix(slots: Seq<InputCacheSlot>, prompt: Seq<InputV>, n: int)
    requires
        0 <= n <= slots.len(),
    ensures
        best_prefix_upto(slots, prompt, n).1 matches Some(i) ==> i < n && best_prefix_upto(
            slots,
            prompt,
            n,
        ).0 == common_prefix(slot_inputs(slots, i as int), prompt),
    decreases n,
{
    if n > 0 {
        lemma_best_prefix(slots, prompt, n - 1);
    }
}

/// Inputs that must be processed again because the backend could not
/// shift a slot's entries.
#[derive(Debug, Clone)]
pub struct ErrReprocessInputs {
    pub inputs: Vec<Input>,
}

/// Why a slot could not be shifted.
#[derive(Debug, Clone)]
pub enum ShiftError {
    /// More inputs were to be kept than the context holds.
    KeepExceedsContext { keep: usize, ctx: usize },
    /// The backend could not shift; the slot was emptied and these inputs
    /// need processing again.
    Reprocess(ErrReprocessInputs),
}

/// The message of a shift error.
pub open spec fn shift_error_message(e: ShiftError) -> Seq<char> {
    match e {
        ShiftError::KeepExceedsContext { keep, ctx } => "unable to shift context - keep exceeds context (keep: "@
            + crate::text::decimal(keep as nat) + " context: "@ + crate::text::decimal(ctx as nat)
            + ")"@,
        ShiftError::Reprocess(r) => "kv cache shift not supported, inputs need reprocessing (input count: "@
            + crate::text::decimal(r.inputs@.len()) + ")"@,
    }
}

impl ShiftError {
    /// The error's message.
    pub fn to_string(&self) -> (s: String)
        ensures
            s@ == shift_error_message(*self),
    {
        let mut out = String::new();
        match self {
            ShiftError::KeepExceedsContext { keep, ctx } => {
                crate::text::push_str(&mut out, "unable to shift context - keep exceeds context (keep: ");
                crate::text::push_chars(&mut out, &crate::text::decimal_chars(*keep as u64));
                crate::text::push_str(&mut out, " context: ");
                crate::text::push_chars(&mut out, &crate::text::decimal_chars(*ctx as u64));
                crate::text::push_str(&mut out, ")");
            },
            ShiftError::Reprocess(r) => {
                crate::text::push_str(
                    &mut out,
                    "kv cache shift not supported, inputs need reprocessing (input count: ",
                );
                crate::text::push_chars(&mut out, &crate::text::decimal_chars(r.inputs.len() as u64));
                crate::text::push_str(&mut out, ")");
            },
        }
        out
    }
}

/// `SystemTime::now` as nanoseconds since the Unix epoch, or 0 for a clock
/// set before it.  It depends on the clock, so nothing is stated.
#[verifier::external_body]
fn now_nanos() -> u128 {
    match std::time::SystemTime::now().duration_since(std::time::UNIX_EPOCH) {
        Ok(d) => d.as_nanos(),
        Err(_) => 0,
    }
}

/// How many prompt inputs a slot keeps: the reusable prefix when caching
/// is on, none otherwise, and never the whole prompt, so that at least one
/// input is left to process.
pub open spec fn kept_inputs(np: nat, cache_prompt: bool, len: nat) -> nat {
    let a = if cache_prompt {
        np
    } else {
        0
    };
    if a == len && a > 0 {
        (a - 1) as nat
    } else {
        a
    }
}

/// The slot a cache picks for a prompt, shared or not.
pub open spec fn spec_pick(slots: Seq<InputCacheSlot>, prompt: Seq<InputV>, multi: bool) -> Option<
    (nat, nat),
> {
    if multi {
        spec_find_best(slots, prompt)
    } else {
        spec_find_longest(slots, prompt)
    }
}

/// What loading `prompt` into a cache at time `now` does: on success the
/// picked slot holds the kept inputs, is in use and was used at `now`, the
/// rest of the prompt is returned, and no other slot changes; on failure
/// no slot changes.
pub open spec fn load_effect(
    before: Seq<InputCacheSlot>,
    after: Seq<InputCacheSlot>,
    prompt: Seq<InputV>,
    multi: bool,
    cache_prompt: bool,
    r: Result<(usize, Vec<Input>), &'static str>,
    now: u128,
) -> bool {
    &&& after.len() == before.len()
    &&& match r {
        Err(e) => {
            &&& e@ == no_slot_message()
            &&& spec_pick(before, prompt, multi) is None
            &&& forall|j: int| 0 <= j < before.len() ==> same_slot(#[trigger] after[j], before[j])
        },
        Ok((idx, rest)) => match spec_pick(before, prompt, multi) {
            None => false,
            Some((i, np)) => {
                let k = kept_inputs(np, cache_prompt, prompt.len());
                &&& idx == i
                &&& idx < before.len()
                &&& inputs_view(rest@) == prompt.skip(k as int)
                &&& slot_inputs(after, idx as int) == prompt.take(k as int)
                &&& after[idx as int].id == before[idx as int].id
                &&& after[idx as int].in_use
                &&& after[idx as int].last_used == now
                &&& forall|j: int|
                    0 <= j < before.len() && j != idx ==> same_slot(#[trigger] after[j], before[j])
            },
        },
    }
}

proof fn lemma_longest_bound(slots: Seq<InputCacheSlot>, prompt: Seq<InputV>, n: int)
    requires
        0 <= n <= slots.len(),
    ensures
        longest_free_upto(slots, prompt, n) matches Some((c, i)) ==> i < n && c <= prompt.len(),
    decreases n,
{
    if n > 0 {
        lemma_longest_bound(slots, prompt, n - 1);
        lemma_common_prefix(slot_inputs(slots, n - 1), prompt);
    }
}

proof fn lemma_pick_bound(slots: Seq<InputCacheSlot>, prompt: Seq<InputV>, multi: bool)
    ensures
        spec_pick(slots, prompt, multi) matches Some((i, np)) ==> i < slots.len() && np <= prompt.len(),
{
    lemma_longest_bound(slots, prompt, slots.len() as int);
    lemma_best_prefix(slots, prompt, slots.len() as int);
    lemma_oldest_free(slots, slots.len() as int);
    let (l, li) = best_prefix_upto(slots, prompt, slots.len() as int);
    if let Some(i) = li {
        lemma_common_prefix(slot_inputs(slots, i as int), prompt);
    }
}

impl<C: KvCache> InputCache<C> {
    /// A cache of `num_slots` empty slots, none in use, numbered from 0.
    pub fn new(num_ctx: usize, num_slots: usize) -> (c: Self)
        ensures
            c.num_ctx == num_ctx,
            c.slots@.len() == num_slots,
            forall|i: int|
                0 <= i < num_slots ==> (#[trigger] c.slots@[i]).id == i && c.slots@[i].inputs@.len()
                    == 0 && !c.slots@[i].in_use && c.slots@[i].last_used == 0,
            !c.multi_user_cache,
            c.cache.is_none(),
    {
        let mut slots: Vec<InputCacheSlot> = Vec::new();
        let mut i: usize = 0;
        while i < num_slots
            invariant
                i <= num_slots,
                slots@.len() == i,
                forall|k: int|
                    0 <= k < i ==> (#[trigger] slots@[k]).id == k && slots@[k].inputs@.len() == 0
                        && !slots@[k].in_use && slots@[k].last_used == 0,
            decreases num_slots - i,
        {
            slots.push(InputCacheSlot { id: i, inputs: Vec::new(), in_use: false, last_used: 0 });
            i += 1;
        }
        InputCache { num_ctx, slots, multi_user_cache: false, cache: None }
    }

    /// The length of the longest common prefix of `a` and `b`.
    pub fn count_common_prefix(a: &[Input], b: &[Input]) -> (r: usize)
        ensures
            r == common_prefix(inputs_view(a@), inputs_view(b@)),
    {
        let ghost av = inputs_view(a@);
        let ghost bv = inputs_view(b@);
        let mut i: usize = 0;
        assert(av.skip(0) =~= av);
        assert(bv.skip(0) =~= bv);
        while i < a.len() && i < b.len() && input_eq(&a[i], &b[i])
            invariant
                i <= a@.len(),
                i <= b@.len(),
                av == inputs_view(a@),
                bv == inputs_view(b@),
                common_prefix(av, bv) == i + common_prefix(av.skip(i as int), bv.skip(i as int)),
            decreases a@.len() - i,
        {
            assert(av.skip(i as int).drop_first() =~= av.skip(i + 1));
            assert(bv.skip(i as int).drop_first() =~= bv.skip(i + 1));
            i += 1;
        }
        if i < a.len() && i < b.len() {
            assert(av.skip(i as int)[0] == av[i as int]);
            assert(bv.skip(i as int)[0] == bv[i as int]);
        }
        i
    }

    /// How many inputs to discard from a slot of `input_len` inputs that
    /// keeps its first `num_keep`.
    pub fn shift_discard(&self, input_len: usize, num_keep: usize) -> (r: usize)
        requires
            num_keep <= self.num_ctx,
            self.num_ctx <= isize::MAX,
            input_len <= isize::MAX,
        ensures
            r == spec_shift_discard(self.num_ctx as int, input_len as int, num_keep as int),
    {
        let mut target_free: i128 = ((self.num_ctx - num_keep) / 2) as i128;
        if target_free < 1 {
            target_free = 1;
        }
        let current_free: i128 = self.num_ctx as i128 - input_len as i128;
        let mut discard: i128 = target_free - current_free;
        if discard < 0 {
            discard = 0;
        }
        discard as usize
    }

    /// The free slot whose inputs share the longest prefix with `prompt`
    /// (the first such slot), and the length of that prefix.
    pub fn find_longest_cache_slot(&self, prompt: &[Input]) -> (r: Result<(usize, usize), &'static str>)
        ensures
            match r {
                Ok((idx, count)) => spec_find_longest(self.slots@, inputs_view(prompt@)) == Some(
                    (idx as nat, count as nat),
                ),
                Err(_) => spec_find_longest(self.slots@, inputs_view(prompt@)) is None,
            },
            match r {
                Ok((idx, count)) => {
                    &&& idx < self.slots@.len()
                    &&& !self.slots@[idx as int].in_use
                    &&& count == common_prefix(slot_inputs(self.slots@, idx as int), inputs_view(prompt@))
                    &&& forall|j: int|
                        0 <= j < self.slots@.len() && !self.slots@[j].in_use ==> common_prefix(
                            #[trigger] slot_inputs(self.slots@, j),
                            inputs_view(prompt@),
                        ) <= count
                    &&& forall|j: int|
                        0 <= j < idx && !self.slots@[j].in_use ==> common_prefix(
                            #[trigger] slot_inputs(self.slots@, j),
                            inputs_view(prompt@),
                        ) < count
                },
                Err(e) => e@ == no_slot_message() && forall|j: int|
                    0 <= j < self.slots@.len() ==> #[trigger] self.slots@[j].in_use,
            },
    {
        let ghost pv = inputs_view(prompt@);
        let mut longest: Option<(usize, usize)> = None;
        let mut i: usize = 0;
        while i < self.slots.len()
            invariant
                i <= self.slots@.len(),
                pv == inputs_view(prompt@),
                longest_free_upto(self.slots@, pv, i as int) == match longest {
                    Some((c, idx)) => Some((c as nat, idx as nat)),
                    None => None::<(nat, nat)>,
                },
                match longest {
                    Some((count, idx)) => {
                        &&& idx < i
                        &&& !self.slots@[idx as int].in_use
                        &&& count == common_prefix(slot_inputs(self.slots@, idx as int), pv)
                        &&& forall|j: int|
                            0 <= j < i && !self.slots@[j].in_use ==> common_prefix(
                                #[trigger] slot_inputs(self.slots@, j),
                                pv,
                            ) <= count
                        &&& forall|j: int|
                            0 <= j < idx && !self.slots@[j].in_use ==> common_prefix(
                                #[trigger] slot_inputs(self.slots@, j),
                                pv,
                            ) < count
                    },
                    None => forall|j: int| 0 <= j < i ==> #[trigger] self.slots@[j].in_use,
                },
            decreases self.slots@.len() - i,
        {
            let slot = &self.slots[i];
            if !slot.in_use {
                let count = Self::count_common_prefix(slot.inputs.as_slice(), prompt);
                assert(slot_inputs(self.slots@, i as int) == inputs_view(slot.inputs@));
                let better = match longest {
                    None => true,
                    Some((c, _)) => count > c,
                };
                if better {
                    longest = Some((count, i));
                }
            }
            i += 1;
        }
        match longest {
            Some((count, idx)) => Ok((idx, count)),
            None => {
                let msg = "no available cache slots";
                proof {
                    reveal_strlit("no available cache slots");
                }
                Err(msg)
            },
        }
    }

    /// The slot a shared cache gives `prompt`, and the prefix length it can
    /// reuse.  When that slot is not the one holding the longest prefix, the
    /// prefix is copied into it, and the backend is told to do the same.
    pub fn find_best_cache_slot(&mut self, prompt: &[Input]) -> (r: Result<(usize, usize), &'static str>)
        ensures
            match r {
                Ok((idx, count)) => spec_find_best(old(self).slots@, inputs_view(prompt@)) == Some(
                    (idx as nat, count as nat),
                ),
                Err(e) => e@ == no_slot_message() && spec_find_best(
                    old(self).slots@,
                    inputs_view(prompt@),
                ) is None,
            },
            final(self).slots@.len() == old(self).slots@.len(),
            forall|j: int|
                0 <= j < old(self).slots@.len() ==> match best_copy(
                    old(self).slots@,
                    inputs_view(prompt@),
                ) {
                    Some((o, src, l)) => if j == o {
                        &&& final(self).slots@[j].id == old(self).slots@[j].id
                        &&& final(self).slots@[j].in_use == old(self).slots@[j].in_use
                        &&& final(self).slots@[j].last_used == old(self).slots@[j].last_used
                        &&& slot_inputs(final(self).slots@, j) == slot_inputs(
                            old(self).slots@,
                            src as int,
                        ).take(l as int)
                    } else {
                        same_slot(#[trigger] final(self).slots@[j], old(self).slots@[j])
                    },
                    None => same_slot(#[trigger] final(self).slots@[j], old(self).slots@[j]),
                },
            final(self).num_ctx == old(self).num_ctx,
            final(self).multi_user_cache == old(self).multi_user_cache,
            final(self).cache.is_some() == old(self).cache.is_some(),
            best_copy(old(self).slots@, inputs_view(prompt@)) is None ==> final(self).cache == old(
                self,
            ).cache,
            best_copy(old(self).slots@, inputs_view(prompt@)) is Some ==> exists|clear_ok: bool|
                backend_after(
                    old(self).cache,
                    final(self).cache,
                    #[trigger] copy_calls(old(self).slots@, inputs_view(prompt@), clear_ok),
                ),
    {
        let ghost pv = inputs_view(prompt@);
        let ghost slots0 = self.slots@;
        proof {
            if self.cache is Some {
                let c0 = self.cache->0;
                assert(c0.calls() + Seq::<KvCall>::empty() =~= c0.calls());
            }
        }
        let n = self.slots.len();
        let mut best_len: usize = 0;
        let mut best_idx: Option<usize> = None;
        let mut oldest: Option<usize> = None;
        let mut i: usize = 0;
        while i < n
            invariant
                n == self.slots@.len(),
                slots0 == self.slots@,
                pv == inputs_view(prompt@),
                i <= n,
                best_prefix_upto(slots0, pv, i as int) == (
                    best_len as nat,
                    match best_idx {
                        Some(b) => Some(b as nat),
                        None => None::<nat>,
                    },
                ),
                oldest_free_upto(slots0, i as int) == match oldest {
                    Some(o) => Some(o as nat),
                    None => None::<nat>,
                },
                oldest matches Some(o) ==> o < i,
            decreases n - i,
        {
            let count = Self::count_common_prefix(self.slots[i].inputs.as_slice(), prompt);
            assert(slot_inputs(slots0, i as int) == inputs_view(self.slots@[i as int].inputs@));
            if count > best_len {
                best_len = count;
                best_idx = Some(i);
            }
            if !self.slots[i].in_use {
                match oldest {
                    Some(o) => {
                        if self.slots[i].last_used < self.slots[o].last_used {
                            oldest = Some(i);
                        }
                    },
                    None => {
                        oldest = Some(i);
                    },
                }
            }
            i += 1;
        }
        proof {
            reveal_strlit("no available cache slots");
            lemma_best_prefix(slots0, pv, n as int);
            lemma_oldest_free(slots0, n as int);
        }
        let li = match best_idx {
            None => {
                return Err("no available cache slots");
            },
            Some(b) => b,
        };
        if best_len == self.slots[li].inputs.len() && !self.slots[li].in_use {
            return Ok((li, best_len));
        }
        let oi = match oldest {
            None => {
                return Err("no available cache slots");
            },
            Some(o) => o,
        };
        if self.slots[oi].in_use {
            return Err("no available cache slots");
        }
        if best_len > 0 && li != oi {
            proof {
                lemma_common_prefix(slot_inputs(slots0, li as int), pv);
            }
            let prefix = clone_inputs(self.slots[li].inputs.as_slice(), 0, best_len);
            let updated = InputCacheSlot {
                id: self.slots[oi].id,
                inputs: prefix,
                in_use: self.slots[oi].in_use,
                last_used: self.slots[oi].last_used,
            };
            self.slots.set(oi, updated);
            assert(inputs_view(slots0[li as int].inputs@).subrange(0, best_len as int)
                =~= slot_inputs(slots0, li as int).take(best_len as int));
            let ghost cache0 = self.cache;
            let ghost mut clear_ok: bool = true;
            match self.cache.take() {
                Some(mut c) => {
                    let ghost c0 = c;
                    let cleared = c.remove(oi, 0, -1);
                    proof {
                        clear_ok = cleared is Ok;
                    }
                    c.copy_prefix(li, oi, best_len as i32);
                    assert(c.calls() =~= c0.calls() + copy_calls(slots0, pv, clear_ok));
                    self.cache = Some(c);
                },
                None => {},
            }
            assert(backend_after(cache0, self.cache, copy_calls(slots0, pv, clear_ok)));
        }
        Ok((oi, best_len))
    }


    /// Gives `prompt` a slot at time `now`: the slot keeps the prefix it can
    /// reuse (all of it but the last input when the whole prompt matches,
    /// none when `cache_prompt` is off) and the rest of the prompt is
    /// returned for processing.
    pub fn load_cache_slot_at(&mut self, prompt: Vec<Input>, cache_prompt: bool, now: u128) -> (r:
        Result<(usize, Vec<Input>), &'static str>)
        ensures
            load_effect(
                old(self).slots@,
                final(self).slots@,
                inputs_view(prompt@),
                old(self).multi_user_cache,
                cache_prompt,
                r,
                now,
            ),
            final(self).num_ctx == old(self).num_ctx,
            final(self).multi_user_cache == old(self).multi_user_cache,
            final(self).cache.is_some() == old(self).cache.is_some(),
            !(old(self).multi_user_cache && best_copy(old(self).slots@, inputs_view(prompt@)) is Some)
                ==> final(self).cache == old(self).cache,
            old(self).multi_user_cache && best_copy(old(self).slots@, inputs_view(prompt@)) is Some
                ==> exists|clear_ok: bool|
                backend_after(
                    old(self).cache,
                    final(self).cache,
                    #[trigger] copy_calls(old(self).slots@, inputs_view(prompt@), clear_ok),
                ),
    {
        let ghost pv = inputs_view(prompt@);
        let ghost slots0 = self.slots@;
        proof {
            lemma_pick_bound(slots0, pv, self.multi_user_cache);
            if self.cache is Some {
                let c0 = self.cache->0;
                assert(c0.calls() + Seq::<KvCall>::empty() =~= c0.calls());
            }
        }
        let found = if self.multi_user_cache {
            self.find_best_cache_slot(prompt.as_slice())
        } else {
            self.find_longest_cache_slot(prompt.as_slice())
        };
        let (slot_idx, found_past) = match found {
            Err(e) => {
                return Err(e);
            },
            Ok(p) => p,
        };
        let ghost slots1 = self.slots@;
        let mut num_past = if cache_prompt {
            found_past
        } else {
            0
        };
        if num_past == prompt.len() && num_past > 0 {
            num_past -= 1;
        }
        let kept = clone_inputs(prompt.as_slice(), 0, num_past);
        let rest = clone_inputs(prompt.as_slice(), num_past, prompt.len());
        let updated = InputCacheSlot {
            id: self.slots[slot_idx].id,
            inputs: kept,
            in_use: true,
            last_used: now,
        };
        self.slots.set(slot_idx, updated);
        assert(pv.subrange(0, num_past as int) =~= pv.take(num_past as int));
        assert(pv.subrange(num_past as int, pv.len() as int) =~= pv.skip(num_past as int));
        proof {
            if self.multi_user_cache {
                lemma_oldest_free(slots0, slots0.len() as int);
            }
        }
        Ok((slot_idx, rest))
    }

    /// Gives `prompt` a slot, marking it used now; see `load_cache_slot_at`.
    pub fn load_cache_slot(&mut self, prompt: Vec<Input>, cache_prompt: bool) -> (r: Result<
        (usize, Vec<Input>),
        &'static str,
    >)
        ensures
            exists|now: u128|
                load_effect(
                    old(self).slots@,
                    final(self).slots@,
                    inputs_view(prompt@),
                    old(self).multi_user_cache,
                    cache_prompt,
                    r,
                    now,
                ),
            final(self).num_ctx == old(self).num_ctx,
            final(self).multi_user_cache == old(self).multi_user_cache,
            final(self).cache.is_some() == old(self).cache.is_some(),
            !(old(self).multi_user_cache && best_copy(old(self).slots@, inputs_view(prompt@)) is Some)
                ==> final(self).cache == old(self).cache,
            old(self).multi_user_cache && best_copy(old(self).slots@, inputs_view(prompt@)) is Some
                ==> exists|clear_ok: bool|
                backend_after(
                    old(self).cache,
                    final(self).cache,
                    #[trigger] copy_calls(old(self).slots@, inputs_view(prompt@), clear_ok),
                ),
    {
        let now = now_nanos();
        self.load_cache_slot_at(prompt, cache_prompt, now)
    }


    /// The slot after a shift, given whether the backend moved its
    /// entries: the shifted inputs stay in the slot; or the slot is emptied
    /// and they are returned for processing again.
    pub fn settle_shift(&mut self, slot_id: usize, shifted: Vec<Input>, backend_ok: bool) -> (r: Result<
        (),
        ShiftError,
    >)
        requires
            slot_id < old(self).slots@.len(),
        ensures
            final(self).slots@.len() == old(self).slots@.len(),
            final(self).num_ctx == old(self).num_ctx,
            final(self).multi_user_cache == old(self).multi_user_cache,
            final(self).cache == old(self).cache,
            forall|j: int|
                0 <= j < old(self).slots@.len() && j != slot_id ==> same_slot(
                    #[trigger] final(self).slots@[j],
                    old(self).slots@[j],
                ),
            final(self).slots@[slot_id as int].id == old(self).slots@[slot_id as int].id,
            final(self).slots@[slot_id as int].in_use == old(self).slots@[slot_id as int].in_use,
            final(self).slots@[slot_id as int].last_used == old(
                self,
            ).slots@[slot_id as int].last_used,
            backend_ok ==> r is Ok && slot_inputs(final(self).slots@, slot_id as int) == inputs_view(
                shifted@,
            ),
            !backend_ok ==> (r matches Err(ShiftError::Reprocess(e)) && inputs_view(e.inputs@)
                == inputs_view(shifted@) && slot_inputs(final(self).slots@, slot_id as int).len()
                == 0),
    {
        let id = self.slots[slot_id].id;
        let in_use = self.slots[slot_id].in_use;
        let last_used = self.slots[slot_id].last_used;
        if !backend_ok {
            self.slots.set(slot_id, InputCacheSlot { id, inputs: Vec::new(), in_use, last_used });
            assert(inputs_view(Seq::<Input>::empty()).len() == 0);
            return Err(ShiftError::Reprocess(ErrReprocessInputs { inputs: shifted }));
        }
        self.slots.set(slot_id, InputCacheSlot { id, inputs: shifted, in_use, last_used });
        Ok(())
    }

    /// Frees room in slot `slot_id` by discarding inputs after the first
    /// `num_keep` ones (see `shift_discard`).  The backend is told to
    /// remove the discarded entries and move the rest back (see
    /// `shift_calls`); when it cannot shift, or the removal fails, the
    /// slot is cleared in the backend and emptied, and the inputs that
    /// remain are returned for processing again.
    pub fn shift_cache_slot(&mut self, slot_id: usize, num_keep: usize) -> (r: Result<(), ShiftError>)
        requires
            slot_id < old(self).slots@.len(),
            old(self).num_ctx <= isize::MAX,
            old(self).slots@[slot_id as int].inputs@.len() <= isize::MAX,
        ensures
            final(self).slots@.len() == old(self).slots@.len(),
            final(self).num_ctx == old(self).num_ctx,
            final(self).multi_user_cache == old(self).multi_user_cache,
            final(self).cache.is_some() == old(self).cache.is_some(),
            forall|j: int|
                0 <= j < old(self).slots@.len() && j != slot_id ==> same_slot(
                    #[trigger] final(self).slots@[j],
                    old(self).slots@[j],
                ),
            final(self).slots@[slot_id as int].id == old(self).slots@[slot_id as int].id,
            final(self).slots@[slot_id as int].in_use == old(self).slots@[slot_id as int].in_use,
            final(self).slots@[slot_id as int].last_used == old(
                self,
            ).slots@[slot_id as int].last_used,
            num_keep >= old(self).num_ctx ==> (r matches Err(
                ShiftError::KeepExceedsContext { keep, ctx },
            ) && keep == num_keep && ctx == old(self).num_ctx && slot_inputs(
                final(self).slots@,
                slot_id as int,
            ) == slot_inputs(old(self).slots@, slot_id as int) && final(self).cache == old(
                self,
            ).cache),
            num_keep < old(self).num_ctx ==> {
                let before = slot_inputs(old(self).slots@, slot_id as int);
                let d = spec_shift_discard(
                    old(self).num_ctx as int,
                    before.len() as int,
                    num_keep as int,
                );
                let shifted = before.take(num_keep as int) + before.skip(num_keep + d);
                &&& d == 0 ==> r is Ok && slot_inputs(final(self).slots@, slot_id as int) == before
                    && final(self).cache == old(self).cache
                &&& d > 0 ==> {
                    ||| r is Ok && slot_inputs(final(self).slots@, slot_id as int) == shifted
                    ||| (r matches Err(ShiftError::Reprocess(e)) && inputs_view(e.inputs@) == shifted
                        && slot_inputs(final(self).slots@, slot_id as int).len() == 0
                        && old(self).cache.is_some())
                }
                &&& old(self).cache.is_none() ==> r is Ok && final(self).cache is None
                &&& d > 0 ==> (old(self).cache matches Some(c0) ==> (r is Ok <==> (c0.spec_can_shift()
                    && first_removal_ok(c0, final(self).cache))))
                &&& d > 0 ==> (old(self).cache matches Some(c0) ==> exists|remove_ok: bool, clear_ok: bool|
                    backend_after(
                        old(self).cache,
                        final(self).cache,
                        #[trigger] shift_calls(
                            slot_id,
                            num_keep,
                            d as usize,
                            before.len() as usize,
                            c0.spec_can_shift(),
                            remove_ok,
                            clear_ok,
                        ),
                    ) && (r is Ok <==> (c0.spec_can_shift() && remove_ok)))
            },
    {
        if num_keep >= self.num_ctx {
            return Err(ShiftError::KeepExceedsContext { keep: num_keep, ctx: self.num_ctx });
        }
        let ghost before = slot_inputs(self.slots@, slot_id as int);
        let input_len = self.slots[slot_id].inputs.len();
        let discard = self.shift_discard(input_len, num_keep);
        if discard == 0 {
            return Ok(());
        }
        assert(num_keep + discard <= input_len);
        let mut shifted = clone_inputs(self.slots[slot_id].inputs.as_slice(), 0, num_keep);
        let tail = clone_inputs(
            self.slots[slot_id].inputs.as_slice(),
            num_keep + discard,
            input_len,
        );
        let ghost head_v = inputs_view(shifted@);
        let mut tail_m = tail;
        let ghost tail_v = inputs_view(tail_m@);
        shifted.append(&mut tail_m);
        assert(inputs_view(shifted@) =~= head_v + tail_v);
        assert(head_v =~= before.take(num_keep as int));
        assert(tail_v =~= before.skip(num_keep + discard));
        let mut backend_ok = true;
        let ghost cache0 = self.cache;
        let ghost mut remove_ok: bool = true;
        let ghost mut clear_ok: bool = true;
        match self.cache.take() {
            Some(mut c) => {
                let ghost c0 = c;
                if c.can_shift() {
                    let removed = c.remove(slot_id, num_keep as i32, (num_keep + discard) as i32);
                    if removed.is_err() {
                        backend_ok = false;
                        proof {
                            remove_ok = false;
                        }
                    } else {
                        let delta: i64 = 0 - (discard as i64);
                        c.shift(slot_id, (num_keep + discard) as i32, input_len as i32, delta as i32);
                    }
                } else {
                    backend_ok = false;
                }
                if !backend_ok {
                    let cleared = c.remove(slot_id, 0, -1);
                    proof {
                        clear_ok = cleared is Ok;
                    }
                }
                assert(c.calls() =~= c0.calls() + shift_calls(
                    slot_id,
                    num_keep,
                    discard,
                    input_len,
                    c0.spec_can_shift(),
                    remove_ok,
                    clear_ok,
                ));
                assert(backend_ok == (c0.spec_can_shift() && remove_ok));
                self.cache = Some(c);
            },
            None => {},
        }
        let r = self.settle_shift(slot_id, shifted, backend_ok);
        proof {
            if cache0 is Some {
                let c0 = cache0->0;
                let d = spec_shift_discard(self.num_ctx as int, before.len() as int, num_keep as int);
                assert(d as usize == discard && before.len() as usize == input_len);
                assert(backend_ok == (c0.spec_can_shift() && remove_ok));
                assert(backend_after(
                    cache0,
                    self.cache,
                    shift_calls(
                        slot_id,
                        num_keep,
                        d as usize,
                        before.len() as usize,
                        c0.spec_can_shift(),
                        remove_ok,
                        clear_ok,
                    ),
                ) && (r is Ok <==> (c0.spec_can_shift() && remove_ok)));
                assert(c0.spec_can_shift() ==> self.cache->0.calls()[c0.calls().len() as int]
                    == (KvCall::Remove {
                    slot: slot_id,
                    begin: num_keep as i32,
                    end: (num_keep + discard) as i32,
                    ok: remove_ok,
                }));
            }
        }
        r
    }

}

// ---------------------------------------------------------------------------
// Laws
// ---------------------------------------------------------------------------

/// Loading a nonempty prompt always leaves at least one input to process.
pub proof fn law_load_leaves_input(np: nat, cache_prompt: bool, len: nat)
    requires
        np <= len,
        len > 0,
    ensures
        kept_inputs(np, cache_prompt, len) < len,
{
}

/// What a slot keeps and what is returned for processing make up the
/// prompt again.
pub proof fn law_load_splits_prompt(prompt: Seq<InputV>, k: nat)
    requires
        k <= prompt.len(),
    ensures
        prompt.take(k as int) + prompt.skip(k as int) == prompt,
{
    assert(prompt.take(k as int) + prompt.skip(k as int) =~= prompt);
}

/// A shift discards nothing of the kept prefix, and once it discards
/// anything, half of the context not kept is free again (at least one
/// place).
pub proof fn law_shift_frees_half(num_ctx: int, input_len: int, num_keep: int)
    requires
        0 <= num_keep < num_ctx,
        0 <= input_len,
    ensures
        ({
            let d = spec_shift_discard(num_ctx, input_len, num_keep);
            let target = if (num_ctx - num_keep) / 2 < 1 {
                1
            } else {
                (num_ctx - num_keep) / 2
            };
            &&& d >= 0
            &&& d > 0 ==> num_keep + d <= input_len
            &&& d > 0 ==> num_ctx - (input_len - d) == target
            &&& d == 0 ==> num_ctx - input_len >= target
        }),
{
}


proof fn lemma_oldest_free_is_oldest(slots: Seq<InputCacheSlot>, n: int)
    requires
        0 <= n <= slots.len(),
    ensures
        oldest_free_upto(slots, n) matches Some(o) ==> forall|j: int|
            0 <= j < n && !#[trigger] slots[j].in_use ==> slots[o as int].last_used
                <= slots[j].last_used && (j < o ==> slots[o as int].last_used < slots[j].last_used),
        oldest_free_upto(slots, n) is None ==> forall|j: int| 0 <= j < n ==> #[trigger] slots[j].in_use,
    decreases n,
{
    if n > 0 {
        lemma_oldest_free_is_oldest(slots, n - 1);
        lemma_oldest_free(slots, n - 1);
    }
}

proof fn lemma_best_prefix_is_longest(slots: Seq<InputCacheSlot>, prompt: Seq<InputV>, n: int)
    requires
        0 <= n <= slots.len(),
    ensures
        forall|j: int|
            0 <= j < n ==> common_prefix(#[trigger] slot_inputs(slots, j), prompt)
                <= best_prefix_upto(slots, prompt, n).0,
    decreases n,
{
    if n > 0 {
        lemma_best_prefix_is_longest(slots, prompt, n - 1);
    }
}

/// The slot a shared cache gives a prompt is free, and the prefix it is
/// given is the longest any slot shares with the prompt.  It is either a
/// slot that holds exactly that prefix and nothing more, or the free slot
/// used least recently (the first of those used equally long ago).
pub proof fn law_find_best_takes_least_recent_free(slots: Seq<InputCacheSlot>, prompt: Seq<InputV>)
    ensures
        spec_find_best(slots, prompt) matches Some((s, l)) ==> {
            &&& s < slots.len()
            &&& !slots[s as int].in_use
            &&& l > 0
            &&& forall|j: int|
                0 <= j < slots.len() ==> common_prefix(#[trigger] slot_inputs(slots, j), prompt) <= l
            &&& exists|j: int|
                0 <= j < slots.len() && common_prefix(#[trigger] slot_inputs(slots, j), prompt) == l
            &&& {
                ||| (slot_inputs(slots, s as int).len() == l && common_prefix(
                    slot_inputs(slots, s as int),
                    prompt,
                ) == l)
                ||| forall|j: int|
                    0 <= j < slots.len() && !#[trigger] slots[j].in_use ==> slots[s as int].last_used
                        <= slots[j].last_used && (j < s ==> slots[s as int].last_used
                        < slots[j].last_used)
            }
        },
        spec_find_best(slots, prompt) is None <==> ((forall|j: int|
            0 <= j < slots.len() ==> common_prefix(#[trigger] slot_inputs(slots, j), prompt) == 0)
            || (forall|j: int| 0 <= j < slots.len() ==> #[trigger] slots[j].in_use)),
{
    let n = slots.len() as int;
    lemma_best_prefix(slots, prompt, n);
    lemma_best_prefix_is_longest(slots, prompt, n);
    lemma_oldest_free(slots, n);
    lemma_oldest_free_is_oldest(slots, n);
    lemma_best_prefix_positive(slots, prompt, n);
    let (l, li) = best_prefix_upto(slots, prompt, n);
    if let Some(i) = li {
        assert(common_prefix(slot_inputs(slots, i as int), prompt) == l);
        if forall|j: int| 0 <= j < slots.len() ==> #[trigger] slots[j].in_use {
            assert(slots[i as int].in_use);
        }
    }
    if let Some(o) = oldest_free_upto(slots, n) {
        assert(!slots[o as int].in_use);
    }
}

proof fn lemma_best_prefix_positive(slots: Seq<InputCacheSlot>, prompt: Seq<InputV>, n: int)
    requires
        0 <= n <= slots.len(),
    ensures
        best_prefix_upto(slots, prompt, n).1 is Some ==> best_prefix_upto(slots, prompt, n).0 > 0,
        best_prefix_upto(slots, prompt, n).1 is None ==> best_prefix_upto(slots, prompt, n).0 == 0,
    decreases n,
{
    if n > 0 {
        lemma_best_prefix_positive(slots, prompt, n - 1);
    }
}

} // verus!
