//! Dispatch handles: which generation of which slot a call speaks of, and what it may do next.

use vstd::prelude::*;

verus! {

/// The handle of a dispatch that was sent.
#[derive(Debug, Clone, Copy, PartialEq, Eq, Structural)]
pub struct DispatchHandleState {
    pub slot: usize,
    pub generation: u64,
}

/// What a slot is in the middle of.
#[derive(Debug, Clone, Copy, PartialEq, Eq, Structural)]
pub enum SlotGenerationState {
    Idle,
    DispatchSent { generation: u64, num_tokens: usize },
    DispatchReceived { generation: u64, num_tokens: usize },
    CombineSent { generation: u64, num_tokens: usize },
}

/// How far a dispatch has come.
#[derive(Debug, Clone, Copy, PartialEq, Eq, Structural)]
pub enum HandlePhase {
    DispatchSent,
    DispatchReceived,
    CombineSent,
}

/// The kernels of a round.
#[derive(Debug, Clone, Copy, PartialEq, Eq, Structural)]
pub enum Kernel {
    DispatchSend,
    DispatchRecv,
    CombineSend,
    CombineRecv,
}

/// Why a call was refused.
#[derive(Debug, Clone, Copy, PartialEq, Eq, Structural)]
pub enum ContextError {
    /// A wrong number of route count buffers.
    RoutedBuffers { expected: usize, ptrs: usize, mrs: usize },
    /// A wrong number of payload buffers.
    PayloadBuffers {
        expected: usize,
        send_ptrs: usize,
        send_mrs: usize,
        recv_ptrs: usize,
        recv_mrs: usize,
    },
    /// A wrong number of rank handle sets.
    RankHandleSets { expected: usize, got: usize },
    /// A wrong number of NVLink pointer sets.
    NvlinkPointerSets { expected: usize, sync: usize, send: usize, recv: usize },
    /// A wrong number of node route pointer sets.
    NodeRoutePointerSets { expected: usize, counts: usize, epochs: usize },
    /// A rank gave a wrong number of descriptors for its route counts.
    RoutedDescriptors { expected: usize, got: usize },
    /// A rank gave a wrong number of descriptors for its receive buffers.
    RecvDescriptors { expected: usize, got: usize },
    /// There is no such slot.
    InvalidSlot { slot: usize },
    /// The slot of a new dispatch is not idle.
    NotIdle { slot: usize, found: SlotGenerationState },
    /// The handle is not in the phase that the call is for.
    StaleHandle {
        slot: usize,
        generation: u64,
        expected: HandlePhase,
        found: SlotGenerationState,
    },
    /// The handle is not live.
    StaleLiveHandle { slot: usize, generation: u64, found: SlotGenerationState },
    /// The slot moved on while tokens were received.
    StaleDispatchRecv { slot: usize, generation: u64, found: SlotGenerationState },
    /// The slot moved on while tokens were sent back.
    StaleCombineSend { slot: usize, generation: u64, found: SlotGenerationState },
    /// The slot moved on while tokens were combined.
    StaleCombineRecv { slot: usize, generation: u64, found: SlotGenerationState },
    /// More tokens than the context was made for.
    TooManyTokens,
    /// The slot is in use or does not exist.
    SlotUnavailable { slot: usize },
    /// The call speaks of another number of tokens than the dispatch.
    TokenCountMismatch { slot: usize, expected: usize, got: usize },
    /// A kernel could not be launched.
    KernelFailed { kernel: Kernel, slot: usize },
    /// A transfer failed.
    TransferFailed { kernel: Kernel, slot: usize },
    /// A wrong number of rows of route counts.
    RouteRows { expected: usize, got: usize },
    /// A row of route counts has a wrong length.
    ExpertCounts { expected: usize, source_group: usize, got: usize },
}

/// A dispatch under way: how far it has come, its generation and its number of tokens.
pub ghost struct LiveDispatch {
    pub phase: HandlePhase,
    pub generation: u64,
    pub num_tokens: usize,
}

impl SlotGenerationState {
    /// The dispatch that the slot is in the middle of.
    pub open spec fn live(self) -> Option<LiveDispatch> {
        match self {
            SlotGenerationState::Idle => None,
            SlotGenerationState::DispatchSent { generation, num_tokens } => Some(
                LiveDispatch { phase: HandlePhase::DispatchSent, generation, num_tokens },
            ),
            SlotGenerationState::DispatchReceived { generation, num_tokens } => Some(
                LiveDispatch { phase: HandlePhase::DispatchReceived, generation, num_tokens },
            ),
            SlotGenerationState::CombineSent { generation, num_tokens } => Some(
                LiveDispatch { phase: HandlePhase::CombineSent, generation, num_tokens },
            ),
        }
    }

    /// Whether the slot is in the middle of this generation.
    pub open spec fn is_live(self, generation: u64) -> bool {
        self.live() is Some && self.live()->0.generation == generation
    }

    /// Whether the slot is in this phase of this generation.
    pub open spec fn is_in(self, phase: HandlePhase, generation: u64) -> bool {
        self.is_live(generation) && self.live()->0.phase == phase
    }

    /// The number of tokens of the dispatch that the slot is in the middle of.
    pub open spec fn tokens(self) -> usize {
        self.live()->0.num_tokens
    }
}

/// The generations handed out, and what each slot is in the middle of.
#[derive(Debug)]
pub struct HandleTable {
    /// The generation of the next dispatch.
    pub next_generation: u64,
    /// The state of each slot.
    pub slot_states: Vec<SlotGenerationState>,
}

/// The generation after `generation`.
pub open spec fn next_generation(generation: u64) -> u64 {
    if generation == u64::MAX {
        0
    } else {
        (generation + 1) as u64
    }
}

impl HandleTable {
    /// No two slots are in the middle of the same generation, and none of one that is yet to
    /// be handed out.
    pub open spec fn fresh(self) -> bool {
        &&& forall|s: int|
            0 <= s < self.slot_states@.len() && (#[trigger] self.slot_states@[s]).live() is Some
                ==> self.slot_states@[s].live()->0.generation < self.next_generation
        &&& forall|s: int, u: int|
            0 <= s < u < self.slot_states@.len() && (#[trigger] self.slot_states@[s]).live() is Some
                && (#[trigger] self.slot_states@[u]).live() is Some
                ==> self.slot_states@[s].live()->0.generation
                != self.slot_states@[u].live()->0.generation
    }

    /// A table of idle slots.
    pub fn new(num_slots: usize) -> (table: Self)
        ensures
            table.next_generation == 1,
            table.slot_states@ == Seq::new(
                num_slots as nat,
                |s: int| SlotGenerationState::Idle,
            ),
            table.fresh(),
    {
        let mut slot_states: Vec<SlotGenerationState> = Vec::new();
        let mut slot: usize = 0;
        while slot < num_slots
            invariant
                slot <= num_slots,
                slot_states@ == Seq::new(slot as nat, |s: int| SlotGenerationState::Idle),
            decreases num_slots - slot,
        {
            slot_states.push(SlotGenerationState::Idle);
            slot = slot + 1;
            proof {
                assert(slot_states@ =~= Seq::new(
                    slot as nat,
                    |s: int| SlotGenerationState::Idle,
                ));
            }
        }
        HandleTable { next_generation: 1, slot_states }
    }

    /// The state of a slot.
    pub fn slot_state(&self, slot: usize) -> (state: Result<SlotGenerationState, ContextError>)
        ensures
            state == if slot < self.slot_states@.len() {
                Ok(self.slot_states@[slot as int])
            } else {
                Err(ContextError::InvalidSlot { slot })
            },
    {
        if slot < self.slot_states.len() {
            Ok(self.slot_states[slot])
        } else {
            Err(ContextError::InvalidSlot { slot })
        }
    }

    /// Starts a dispatch on a slot. The generation is used up whether or not that succeeds.
    pub fn begin_dispatch_handle(&mut self, slot: usize, num_tokens: usize) -> (handle: Result<
        DispatchHandleState,
        ContextError,
    >)
        ensures
            final(self).next_generation == next_generation(old(self).next_generation),
            handle == if slot >= old(self).slot_states@.len() {
                Err::<DispatchHandleState, ContextError>(ContextError::InvalidSlot { slot })
            } else if old(self).slot_states@[slot as int] != SlotGenerationState::Idle {
                Err(
                    ContextError::NotIdle {
                        slot,
                        found: old(self).slot_states@[slot as int],
                    },
                )
            } else {
                Ok(DispatchHandleState { slot, generation: old(self).next_generation })
            },
            final(self).slot_states@ == if handle is Ok {
                old(self).slot_states@.update(
                    slot as int,
                    SlotGenerationState::DispatchSent {
                        generation: old(self).next_generation,
                        num_tokens,
                    },
                )
            } else {
                old(self).slot_states@
            },
            old(self).fresh() && old(self).next_generation < u64::MAX ==> final(self).fresh(),
    {
        let generation: u64 = self.next_generation;
        self.next_generation = self.next_generation.wrapping_add(1);
        let state: SlotGenerationState = match self.slot_state(slot) {
            Ok(state) => state,
            Err(error) => {
                return Err(error);
            },
        };
        match state {
            SlotGenerationState::Idle => {
                self.slot_states.set(
                    slot,
                    SlotGenerationState::DispatchSent { generation, num_tokens },
                );
                Ok(DispatchHandleState { slot, generation })
            },
            other => Err(ContextError::NotIdle { slot, found: other }),
        }
    }

    /// Checks that a handle is in a phase, and gives its number of tokens.
    pub fn validate_dispatch_handle(
        &self,
        slot: usize,
        generation: u64,
        expected: HandlePhase,
    ) -> (tokens: Result<usize, ContextError>)
        ensures
            tokens == if slot >= self.slot_states@.len() {
                Err::<usize, ContextError>(ContextError::InvalidSlot { slot })
            } else if self.slot_states@[slot as int].is_in(expected, generation) {
                Ok(self.slot_states@[slot as int].tokens())
            } else {
                Err(
                    ContextError::StaleHandle {
                        slot,
                        generation,
                        expected,
                        found: self.slot_states@[slot as int],
                    },
                )
            },
    {
        let found: SlotGenerationState = match self.slot_state(slot) {
            Ok(state) => state,
            Err(error) => {
                return Err(error);
            },
        };
        match found {
            SlotGenerationState::DispatchSent { generation: current, num_tokens } => {
                if expected == HandlePhase::DispatchSent && current == generation {
                    return Ok(num_tokens);
                }
            },
            SlotGenerationState::DispatchReceived { generation: current, num_tokens } => {
                if expected == HandlePhase::DispatchReceived && current == generation {
                    return Ok(num_tokens);
                }
            },
            SlotGenerationState::CombineSent { generation: current, num_tokens } => {
                if expected == HandlePhase::CombineSent && current == generation {
                    return Ok(num_tokens);
                }
            },
            SlotGenerationState::Idle => {},
        }
        Err(ContextError::StaleHandle { slot, generation, expected, found })
    }

    /// Checks that a handle is live, in whatever phase, and gives its number of tokens.
    pub fn validate_live_dispatch_handle(&self, slot: usize, generation: u64) -> (tokens: Result<
        usize,
        ContextError,
    >)
        ensures
            tokens == if slot >= self.slot_states@.len() {
                Err::<usize, ContextError>(ContextError::InvalidSlot { slot })
            } else if self.slot_states@[slot as int].is_live(generation) {
                Ok(self.slot_states@[slot as int].tokens())
            } else {
                Err(
                    ContextError::StaleLiveHandle {
                        slot,
                        generation,
                        found: self.slot_states@[slot as int],
                    },
                )
            },
    {
        let found: SlotGenerationState = match self.slot_state(slot) {
            Ok(state) => state,
            Err(error) => {
                return Err(error);
            },
        };
        match found {
            SlotGenerationState::DispatchSent { generation: current, num_tokens } => {
                if current == generation {
                    return Ok(num_tokens);
                }
            },
            SlotGenerationState::DispatchReceived { generation: current, num_tokens } => {
                if current == generation {
                    return Ok(num_tokens);
                }
            },
            SlotGenerationState::CombineSent { generation: current, num_tokens } => {
                if current == generation {
                    return Ok(num_tokens);
                }
            },
            SlotGenerationState::Idle => {},
        }
        Err(ContextError::StaleLiveHandle { slot, generation, found })
    }

    /// Notes that the tokens of a dispatch were received.
    pub fn transition_dispatch_received(&mut self, slot: usize, generation: u64) -> (result: Result<
        (),
        ContextError,
    >)
        ensures
            final(self).next_generation == old(self).next_generation,
            result == if slot >= old(self).slot_states@.len() {
                Err::<(), ContextError>(ContextError::InvalidSlot { slot })
            } else if old(self).slot_states@[slot as int].is_in(
                HandlePhase::DispatchSent,
                generation,
            ) {
                Ok(())
            } else {
                Err(
                    ContextError::StaleDispatchRecv {
                        slot,
                        generation,
                        found: old(self).slot_states@[slot as int],
                    },
                )
            },
            final(self).slot_states@ == if result is Ok {
                old(self).slot_states@.update(
                    slot as int,
                    SlotGenerationState::DispatchReceived {
                        generation,
                        num_tokens: old(self).slot_states@[slot as int].tokens(),
                    },
                )
            } else {
                old(self).slot_states@
            },
            old(self).fresh() ==> final(self).fresh(),
    {
        let found: SlotGenerationState = match self.slot_state(slot) {
            Ok(state) => state,
            Err(error) => {
                return Err(error);
            },
        };
        match found {
            SlotGenerationState::DispatchSent { generation: current, num_tokens } => {
                if current == generation {
                    self.slot_states.set(
                        slot,
                        SlotGenerationState::DispatchReceived { generation, num_tokens },
                    );
                    return Ok(());
                }
            },
            _ => {},
        }
        Err(ContextError::StaleDispatchRecv { slot, generation, found })
    }

    /// Notes that the tokens of a dispatch were sent back.
    pub fn transition_combine_sent(&mut self, slot: usize, generation: u64) -> (result: Result<
        (),
        ContextError,
    >)
        ensures
            final(self).next_generation == old(self).next_generation,
            result == if slot >= old(self).slot_states@.len() {
                Err::<(), ContextError>(ContextError::InvalidSlot { slot })
            } else if old(self).slot_states@[slot as int].is_in(
                HandlePhase::DispatchReceived,
                generation,
            ) {
                Ok(())
            } else {
                Err(
                    ContextError::StaleCombineSend {
                        slot,
                        generation,
                        found: old(self).slot_states@[slot as int],
                    },
                )
            },
            final(self).slot_states@ == if result is Ok {
                old(self).slot_states@.update(
                    slot as int,
                    SlotGenerationState::CombineSent {
                        generation,
                        num_tokens: old(self).slot_states@[slot as int].tokens(),
                    },
                )
            } else {
                old(self).slot_states@
            },
            old(self).fresh() ==> final(self).fresh(),
    {
        let found: SlotGenerationState = match self.slot_state(slot) {
            Ok(state) => state,
            Err(error) => {
                return Err(error);
            },
        };
        match found {
            SlotGenerationState::DispatchReceived { generation: current, num_tokens } => {
                if current == generation {
                    self.slot_states.set(
                        slot,
                        SlotGenerationState::CombineSent { generation, num_tokens },
                    );
                    return Ok(());
                }
            },
            _ => {},
        }
        Err(ContextError::StaleCombineSend { slot, generation, found })
    }

    /// Ends a dispatch: its slot is idle again.
    pub fn release_handle(&mut self, slot: usize, generation: u64) -> (result: Result<
        (),
        ContextError,
    >)
        ensures
            final(self).next_generation == old(self).next_generation,
            result == if slot >= old(self).slot_states@.len() {
                Err::<(), ContextError>(ContextError::InvalidSlot { slot })
            } else if old(self).slot_states@[slot as int].is_in(
                HandlePhase::CombineSent,
                generation,
            ) {
                Ok(())
            } else {
                Err(
                    ContextError::StaleCombineRecv {
                        slot,
                        generation,
                        found: old(self).slot_states@[slot as int],
                    },
                )
            },
            final(self).slot_states@ == if result is Ok {
                old(self).slot_states@.update(slot as int, SlotGenerationState::Idle)
            } else {
                old(self).slot_states@
            },
            old(self).fresh() ==> final(self).fresh(),
    {
        let found: SlotGenerationState = match self.slot_state(slot) {
            Ok(state) => state,
            Err(error) => {
                return Err(error);
            },
        };
        match found {
            SlotGenerationState::CombineSent { generation: current, num_tokens: _ } => {
                if current == generation {
                    self.slot_states.set(slot, SlotGenerationState::Idle);
                    return Ok(());
                }
            },
            _ => {},
        }
        Err(ContextError::StaleCombineRecv { slot, generation, found })
    }
}

/// The states of all slots once a dispatch on `slot` was sent.
pub open spec fn sent(
    states: Seq<SlotGenerationState>,
    slot: int,
    generation: u64,
    num_tokens: usize,
) -> Seq<SlotGenerationState> {
    states.update(slot, SlotGenerationState::DispatchSent { generation, num_tokens })
}

/// A live generation names one dispatch: it is live on no other slot, and a generation that is
/// yet to be handed out is live nowhere.
pub proof fn law_live_generation_names_one_slot(table: HandleTable, s: int, u: int, generation: u64)
    requires
        table.fresh(),
        0 <= s < table.slot_states@.len(),
        0 <= u < table.slot_states@.len(),
        table.slot_states@[s].is_live(generation),
    ensures
        generation < table.next_generation,
        table.slot_states@[u].is_live(generation) ==> u == s,
{
}

/// Whatever a slot is in the middle of, it takes the handle of one generation in one phase: any
/// other generation is stale and any other phase is out of turn.
pub proof fn law_slot_takes_one_handle(
    state: SlotGenerationState,
    phase: HandlePhase,
    generation: u64,
    other_phase: HandlePhase,
    other_generation: u64,
)
    requires
        state.is_in(phase, generation),
    ensures
        state.is_in(other_phase, other_generation) <==> other_phase == phase && other_generation
            == generation,
        state.is_live(other_generation) <==> other_generation == generation,
{
}

/// A dispatch passes through its phases in order, keeps its number of tokens, and leaves its
/// slot as it found it; once it has moved on, the same handle is not taken in the same phase
/// again.
pub proof fn law_dispatch_runs_its_course(
    states: Seq<SlotGenerationState>,
    slot: int,
    generation: u64,
    num_tokens: usize,
)
    requires
        0 <= slot < states.len(),
        states[slot] == SlotGenerationState::Idle,
    ensures
        ({
            let first = sent(states, slot, generation, num_tokens);
            let second = first.update(
                slot,
                SlotGenerationState::DispatchReceived {
                    generation,
                    num_tokens: first[slot].tokens(),
                },
            );
            let third = second.update(
                slot,
                SlotGenerationState::CombineSent {
                    generation,
                    num_tokens: second[slot].tokens(),
                },
            );
            &&& first[slot].is_in(HandlePhase::DispatchSent, generation)
            &&& second[slot].is_in(HandlePhase::DispatchReceived, generation)
            &&& third[slot].is_in(HandlePhase::CombineSent, generation)
            &&& third[slot].tokens() == num_tokens
            &&& !second[slot].is_in(HandlePhase::DispatchSent, generation)
            &&& !third[slot].is_in(HandlePhase::DispatchReceived, generation)
            &&& third.update(slot, SlotGenerationState::Idle) == states
            &&& !states[slot].is_live(generation)
        }),
{
    let first = sent(states, slot, generation, num_tokens);
    let second = first.update(
        slot,
        SlotGenerationState::DispatchReceived { generation, num_tokens: first[slot].tokens() },
    );
    let third = second.update(
        slot,
        SlotGenerationState::CombineSent { generation, num_tokens: second[slot].tokens() },
    );
    assert(third.update(slot, SlotGenerationState::Idle) =~= states);
}

} // verus!
