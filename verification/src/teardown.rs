//! Giving up entries for good: a key that is no longer tracked, and shutdown.

use crate::model::{ids, texts};
use crate::pool::WarmPool;
use crate::stack_key::StackKey;
use vstd::prelude::*;

verus! {

/// What a teardown waits for.
#[derive(Debug)]
pub enum Teardown {
    /// A VM has to be destroyed.
    Destroy(Destroying),
    /// Nothing: the teardown is over.
    Done,
}

/// A teardown with a VM to destroy.
#[derive(Debug)]
pub struct Destroying {
    vm_id: String,
    rest: Vec<String>,
}

impl View for Destroying {
    type V = Seq<Seq<char>>;

    /// The VMs that have to be destroyed, in order.
    closed spec fn view(&self) -> Seq<Seq<char>> {
        seq![self.vm_id@] + texts(self.rest@)
    }
}

impl View for Teardown {
    type V = Seq<Seq<char>>;

    /// The VMs that have to be destroyed, in order.
    open spec fn view(&self) -> Seq<Seq<char>> {
        match self {
            Teardown::Destroy(destroying) => destroying@,
            Teardown::Done => Seq::empty(),
        }
    }
}

impl Teardown {
    fn of(drained: Vec<String>) -> (teardown: Teardown)
        ensures
            teardown@ == texts(drained@),
            teardown is Done <==> drained@.len() == 0,
    {
        let mut rest = drained;
        if rest.len() == 0 {
            assert(texts(rest@) =~= Seq::empty());
            Teardown::Done
        } else {
            let vm_id = rest.remove(0);
            assert(seq![vm_id@] + texts(rest@) =~= texts(drained@));
            Teardown::Destroy(Destroying { vm_id, rest })
        }
    }
}

impl Destroying {
    /// The VM to destroy now.
    pub fn vm_id(&self) -> (vm_id: &str)
        ensures
            self@.len() > 0,
            vm_id@ == self@.first(),
    {
        self.vm_id.as_str()
    }

    /// The provider was asked to destroy the VM. Whether it could does not
    /// matter: the pool has let go of the VM.
    pub fn destroyed(self, pool: &mut WarmPool) -> (next: Teardown)
        requires
            old(pool)@.well_formed(),
        ensures
            final(pool)@.well_formed(),
            final(pool)@ == old(pool)@.count_evicted(),
            next@ == self@.drop_first(),
            next is Done <==> self@.len() == 1,
    {
        pool.count_evicted();
        assert(texts(self.rest@) =~= self@.drop_first());
        Teardown::of(self.rest)
    }
}

impl WarmPool {
    /// Stop tracking `stack`. Its entries are to be destroyed right away
    /// (best-effort), so the pool doesn't keep paying for them.
    pub fn unregister(&mut self, stack: &StackKey) -> (teardown: Teardown)
        requires
            old(self)@.well_formed(),
        ensures
            final(self)@.well_formed(),
            final(self)@ == old(self)@.unregister(stack@),
            teardown@ == ids(old(self)@.entries(stack@)),
            teardown is Done <==> old(self)@.entries(stack@).len() == 0,
    {
        let drained = self.remove_bucket(stack);
        assert(texts(drained@).len() == drained@.len());
        assert(ids(old(self)@.entries(stack@)).len() == old(self)@.entries(stack@).len());
        Teardown::of(drained)
    }

    /// Shut the pool down: refill ticks stop, and all live entries are to be
    /// destroyed (best-effort). Keys stay registered.
    ///
    /// Idempotent. A pool whose scheduler may still be in a tick is told first,
    /// with [`request_shutdown`](Self::request_shutdown), and shut down once
    /// the scheduler is gone.
    pub fn shutdown(&mut self) -> (teardown: Teardown)
        requires
            old(self)@.well_formed(),
        ensures
            final(self)@.well_formed(),
            final(self)@ == old(self)@.drained(),
            teardown@ == old(self)@.all_ids(),
            teardown is Done <==> old(self)@.all_ids().len() == 0,
    {
        let drained = self.drain_all();
        assert(texts(drained@).len() == drained@.len());
        Teardown::of(drained)
    }
}

/// A teardown shows the VMs that are left to be destroyed: none once it is over.
pub proof fn law_teardown_shows_what_is_left(at: Teardown)
    ensures
        match at {
            Teardown::Destroy(destroying) => at@ == destroying@,
            Teardown::Done => at@.len() == 0,
        },
{
}

} // verus!
