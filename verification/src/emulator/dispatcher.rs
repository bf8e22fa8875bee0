//! Dispatches commands from a program while simulating the latency of
//! command processing: an `AddX` blocks for one tick before completing.

use vstd::prelude::*;

use crate::emulator::Command;
use crate::emulator::Program;

verus! {

/// How many ticks a command blocks before completing.
pub open spec fn blocking_of(cmd: Command) -> u8 {
    match cmd {
        Command::AddX(_) => 1,
        Command::NoOp => 0,
    }
}

/// Dispatches commands from an inner `Program`, blocking to model command
/// latency.
pub struct BlockingDispatcher {
    blocking: u8,
    inner: Program,
    next: Command,
    done: bool,
}

/// What polling the dispatcher at the start of a tick yields.
pub enum BlockingState {
    /// This tick blocks; poll again at the start of the next tick.
    Blocked,
    /// This command finished at the end of the last tick and should be
    /// dispatched immediately.
    Completed(Command),
}

/// Errors raised while building a dispatcher.
#[derive(Debug)]
pub enum DispatcherError {
    EmptyProgram,
}

/// How one poll changes the dispatcher's state.
pub open spec fn tick_transition(pre: BlockingDispatcher, post: BlockingDispatcher) -> bool {
    if pre.spec_blocking() > 0 {
        &&& post.spec_blocking() == pre.spec_blocking() - 1
        &&& post.spec_next() == pre.spec_next()
        &&& post.spec_remaining() == pre.spec_remaining()
        &&& post.spec_done() == pre.spec_done()
    } else {
        &&& post.spec_blocking() == blocking_of(post.spec_next())
        &&& if pre.spec_remaining().len() > 0 {
            &&& post.spec_next() == pre.spec_remaining()[0]
            &&& post.spec_remaining() == pre.spec_remaining().skip(1)
            &&& post.spec_done() == pre.spec_done()
        } else {
            &&& post.spec_next() == Command::NoOp
            &&& post.spec_remaining() == pre.spec_remaining()
            &&& post.spec_done()
        }
    }
}

impl BlockingDispatcher {
    /// Remaining ticks the pending command blocks for.
    pub closed spec fn spec_blocking(self) -> u8 {
        self.blocking
    }

    /// The command currently being dispatched.
    pub closed spec fn spec_next(self) -> Command {
        self.next
    }

    /// The commands not yet fetched from the program.
    pub closed spec fn spec_remaining(self) -> Seq<Command> {
        self.inner.remaining()
    }

    /// The program has been exhausted.
    pub closed spec fn spec_done(self) -> bool {
        self.done
    }

    pub closed spec fn wf(self) -> bool {
        self.inner.wf()
    }

    /// Builds a dispatcher over a program; an empty program is refused.
    pub fn from_program(program: Program) -> (r: Result<BlockingDispatcher, DispatcherError>)
        requires
            program.wf(),
        ensures
            match r {
                Ok(d) => {
                    &&& program.remaining().len() > 0
                    &&& d.wf()
                    &&& d.spec_next() == program.remaining()[0]
                    &&& d.spec_blocking() == blocking_of(program.remaining()[0])
                    &&& d.spec_remaining() == program.remaining().skip(1)
                    &&& !d.spec_done()
                },
                Err(e) => e is EmptyProgram && program.remaining().len() == 0,
            },
    {
        let mut dispatcher = BlockingDispatcher {
            blocking: 0,
            inner: program,
            next: Command::NoOp,
            done: false,
        };
        let first_cmd = match dispatcher.inner.next_command() {
            Some(cmd) => cmd,
            None => {
                return Err(DispatcherError::EmptyProgram);
            },
        };
        dispatcher.load_cmd(first_cmd);
        Ok(dispatcher)
    }

    /// Polls the dispatcher at the start of a tick: either the pending
    /// command is still blocking, or it completed at the end of the last
    /// tick and the next command begins dispatching.
    pub fn tick(&mut self) -> (r: Option<BlockingState>)
        requires
            old(self).wf(),
        ensures
            final(self).wf(),
            r is Some,
            tick_transition(*old(self), *final(self)),
            match r {
                Some(state) => if old(self).spec_blocking() > 0 {
                    state is Blocked
                } else {
                    state matches BlockingState::Completed(cmd) && cmd == old(self).spec_next()
                },
                None => false,
            },
    {
        let result = if self.blocking > 0 {
            self.blocking -= 1;
            Some(BlockingState::Blocked)
        } else {
            let next_cmd = self.inner.next_command();
            if next_cmd.is_none() {
                self.done = true;
            }
            let completed = self.load_cmd(
                match next_cmd {
                    Some(cmd) => cmd,
                    None => Command::NoOp,
                },
            );
            Some(BlockingState::Completed(completed))
        };
        result
    }

    fn load_cmd(&mut self, cmd: Command) -> (replaced: Command)
        ensures
            final(self).wf() == old(self).wf(),
            replaced == old(self).spec_next(),
            final(self).spec_next() == cmd,
            final(self).spec_blocking() == blocking_of(cmd),
            final(self).spec_remaining() == old(self).spec_remaining(),
            final(self).spec_done() == old(self).spec_done(),
    {
        self.blocking = match cmd {
            Command::AddX(_) => 1,
            Command::NoOp => 0,
        };
        let replaced = self.next;
        self.next = cmd;
        replaced
    }

    /// The program has been exhausted.
    pub fn is_done(&self) -> (d: bool)
        ensures
            d == self.spec_done(),
    {
        self.done
    }
}

} // verus!
