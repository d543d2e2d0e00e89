//! The twin-validator exercise: clone the identity of each of the first
//! `twin_count` validators onto a validator taken from the tail of the
//! list, restart both, and wait for the twin to become healthy. The plan
//! is computed here as plain data; driving a real network with it is I/O
//! left to the embedding program.

use vstd::prelude::*;

verus! {

/// Where the surrounding load generator should direct traffic.
#[derive(Clone, Copy, Debug, PartialEq, Eq, Structural)]
pub enum LoadDestination {
    AllFullnodes,
    AllValidators,
}

/// One step of the twin exercise, over validator list positions.
#[derive(Clone, Copy, Debug, PartialEq, Eq, Structural)]
pub enum TwinAction {
    /// Wipe the twin's storage before it takes over an identity.
    ClearStorage(usize),
    /// Copy the identity of the first validator onto the second.
    CopyIdentity(usize, usize),
    /// Stop a validator.
    Stop(usize),
    /// Start a validator.
    Start(usize),
    /// Wait until a validator reports healthy, within the bounded deadline.
    WaitHealthy(usize),
}

/// The steps for twins numbered `i` and up.
pub open spec fn twin_plan_from(validator_count: int, twin_count: int, i: int) -> Seq<TwinAction>
    decreases twin_count - i,
{
    if i < 0 || i >= twin_count || twin_count > validator_count {
        Seq::empty()
    } else {
        let main = i as usize;
        let twin = (validator_count - twin_count + i) as usize;
        seq![
            TwinAction::ClearStorage(twin),
            TwinAction::CopyIdentity(main, twin),
            TwinAction::Stop(main),
            TwinAction::Start(twin),
            TwinAction::WaitHealthy(twin),
            TwinAction::Start(main),
        ] + twin_plan_from(validator_count, twin_count, i + 1)
    }
}

pub struct TwinValidatorTest;

impl TwinValidatorTest {
    /// The exercise's display name.
    pub fn name(&self) -> (r: &'static str)
        ensures
            r@ == "twin validator"@,
    {
        "twin validator"
    }

    /// Traffic goes to the full nodes while the exercise runs.
    pub fn setup(&self) -> (r: LoadDestination)
        ensures
            r == LoadDestination::AllFullnodes,
    {
        LoadDestination::AllFullnodes
    }

    /// The complete ordered action plan for the exercise.
    pub fn run_plan(&self, validator_count: usize, twin_count: usize) -> (r: Vec<TwinAction>)
        requires
            twin_count <= validator_count,
        ensures
            r@ == twin_plan_from(validator_count as int, twin_count as int, 0),
    {
        self.plan_from(validator_count, twin_count, 0)
    }

    fn plan_from(&self, validator_count: usize, twin_count: usize, i: usize) -> (r: Vec<TwinAction>)
        requires
            twin_count <= validator_count,
        ensures
            r@ == twin_plan_from(validator_count as int, twin_count as int, i as int),
        decreases twin_count - i,
    {
        if i >= twin_count {
            proof {
                assert(twin_plan_from(validator_count as int, twin_count as int, i as int)
                    =~= Seq::<TwinAction>::empty());
            }
            Vec::new()
        } else {
            let main = i;
            let twin = validator_count - twin_count + i;
            let mut r: Vec<TwinAction> = Vec::new();
            r.push(TwinAction::ClearStorage(twin));
            r.push(TwinAction::CopyIdentity(main, twin));
            r.push(TwinAction::Stop(main));
            r.push(TwinAction::Start(twin));
            r.push(TwinAction::WaitHealthy(twin));
            r.push(TwinAction::Start(main));
            let rest = self.plan_from(validator_count, twin_count, i + 1);
            let mut k: usize = 0;
            while k < rest.len()
                invariant
                    k <= rest.len(),
                    r@.len() == 6 + k,
                    r@ =~= r@.take(6) + rest@.take(k as int),
                    r@.take(6) =~= seq![
                        TwinAction::ClearStorage((validator_count - twin_count + i) as usize),
                        TwinAction::CopyIdentity(i as usize, (validator_count - twin_count + i) as usize),
                        TwinAction::Stop(i as usize),
                        TwinAction::Start((validator_count - twin_count + i) as usize),
                        TwinAction::WaitHealthy((validator_count - twin_count + i) as usize),
                        TwinAction::Start(i as usize),
                    ],
                decreases rest.len() - k,
            {
                r.push(rest[k]);
                proof {
                    assert(r@.take(6) =~= r@.drop_last().take(6));
                    assert(r@ =~= r@.take(6) + rest@.take(k as int + 1));
                }
                k = k + 1;
            }
            proof {
                assert(rest@.take(rest@.len() as int) =~= rest@);
                assert(r@ =~= twin_plan_from(validator_count as int, twin_count as int, i as int));
            }
            r
        }
    }
}

} // verus!
