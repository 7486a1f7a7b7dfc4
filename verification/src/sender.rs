//! The sender: it collects commands into batches for the destination, first
//! those of the snapshot and then those of the stream behind it, and keeps
//! the two apart.
//!
//! The sender does not talk to the destination itself. It hands out batches,
//! and is told what became of them.
use crate::cmd::{cmd_pack, cmds_view, lemma_cmds_view_empty, lemma_cmds_view_push, ArgView, Cmd};
use crate::run::Phase;
use crate::source::{is_text_ignoring_case, same_ignoring_case};
use vstd::prelude::*;
use vstd::string::*;

verus! {

/// The number of commands at which a batch is handed out.
pub const BATCH_MAX: usize = 300;

/// A command that the sender holds or has handed out, and where it came
/// from: the stream behind the snapshot (`tail`) or the snapshot.
pub struct Handed {
    pub cmd: Seq<ArgView>,
    pub tail: bool,
}

/// The sender.
pub struct Sender {
    phase: Phase,
    batch: Vec<Cmd>,
    awaiting: bool,
    blocked: bool,
    last_select: Cmd,
    send_count: u64,
    tags: Ghost<Seq<bool>>,
    handed: Ghost<Seq<Handed>>,
}

/// A sender as a mathematical value.
pub struct SenderView {
    /// The phase of the session.
    pub phase: Phase,
    /// The commands collected for the next batch.
    pub batch: Seq<Handed>,
    /// Whether a batch has been handed out whose fate is not known yet.
    pub awaiting: bool,
    /// Whether the connection to the destination has failed and has not
    /// been made again yet.
    pub blocked: bool,
    /// The last command of the stream that selected a database; empty where
    /// there was none.
    pub last_select: Seq<ArgView>,
    /// How many commands have reached the destination.
    pub send_count: u64,
    /// Every command ever handed out, in the order of handing out.
    pub handed: Seq<Handed>,
}

/// Whether in `log` no command of the stream comes before a command of the
/// snapshot.
pub open spec fn full_before_tail(log: Seq<Handed>) -> bool {
    forall|i: int, j: int| 0 <= i < j < log.len() ==> !((#[trigger] log[i]).tail && !(
    #[trigger] log[j]).tail)
}

/// The commands `cmds`, marked as coming from where `tail` says.
pub open spec fn marked(cmds: Seq<Seq<ArgView>>, tail: bool) -> Seq<Handed> {
    Seq::new(cmds.len(), |i: int| Handed { cmd: cmds[i], tail })
}

/// The commands of a list of held commands.
pub open spec fn cmds_of(held: Seq<Handed>) -> Seq<Seq<ArgView>> {
    Seq::new(held.len(), |i: int| held[i].cmd)
}

impl SenderView {
    /// What holds of a sender at all times. Until the last phase, no
    /// command of the stream has been accepted or handed out. In the last
    /// phase, no command of the snapshot is held any more. No batch is
    /// awaited while the connection is down.
    pub open spec fn inv(self) -> bool {
        &&& forall|i: int|
            0 <= i < self.batch.len() ==> (#[trigger] self.batch[i]).tail == (self.phase
                == Phase::SendDone)
        &&& self.phase != Phase::SendDone ==> forall|i: int|
            0 <= i < self.handed.len() ==> !(#[trigger] self.handed[i]).tail
        &&& full_before_tail(self.handed)
        &&& self.batch.len() <= BATCH_MAX
        &&& !(self.awaiting && self.blocked)
        &&& self.last_select.len() > 0 ==> self.phase == Phase::SendDone
    }

    /// Whether the sender can hand out commands now: no batch is awaited
    /// and the connection is up.
    pub open spec fn ready(self) -> bool {
        !self.awaiting && !self.blocked
    }

    /// Whether the sender takes commands now: it is ready and its batch has
    /// room.
    pub open spec fn takes(self) -> bool {
        self.ready() && self.batch.len() < BATCH_MAX
    }
}

/// In every state that a sender can reach, the commands handed out so far
/// are in order: every command of the snapshot before any command of the
/// stream behind it.
pub proof fn lemma_phase_ordering(s: SenderView)
    requires
        s.inv(),
    ensures
        full_before_tail(s.handed),
        s.phase != Phase::SendDone ==> forall|i: int|
            0 <= i < s.handed.len() ==> !(#[trigger] s.handed[i]).tail,
{
}

/// Handing out more commands keeps the order, where they come from the
/// stream, or where nothing from the stream was handed out before.
pub proof fn lemma_handing_keeps_order(log: Seq<Handed>, more: Seq<Handed>, tail: bool)
    requires
        full_before_tail(log),
        forall|i: int| 0 <= i < more.len() ==> (#[trigger] more[i]).tail == tail,
        !tail ==> forall|i: int| 0 <= i < log.len() ==> !(#[trigger] log[i]).tail,
    ensures
        full_before_tail(log + more),
        !tail ==> forall|i: int| 0 <= i < (log + more).len() ==> !(#[trigger] (log + more)[i]).tail,
{
    let all = log + more;
    assert forall|i: int, j: int| 0 <= i < j < all.len() implies !((#[trigger] all[i]).tail && !(
    #[trigger] all[j]).tail) by {
        if j < log.len() {
            assert(all[i] == log[i] && all[j] == log[j]);
        } else if i < log.len() {
            assert(all[i] == log[i] && all[j] == more[j - log.len()]);
        } else {
            assert(all[i] == more[i - log.len()] && all[j] == more[j - log.len()]);
        }
    }
    if !tail {
        assert forall|i: int| 0 <= i < all.len() implies !(#[trigger] all[i]).tail by {
            if i < log.len() {
                assert(all[i] == log[i]);
            } else {
                assert(all[i] == more[i - log.len()]);
            }
        }
    }
}

/// What the sender does with a command that it is offered.
pub enum Accept {
    /// The command was put into the batch.
    Queued,
    /// The command was put into the batch, which is full: these commands
    /// are to be sent now.
    Flush(Vec<Cmd>),
    /// The command was not taken: it is out of phase, or a batch is awaited,
    /// or the connection is down.
    Refused(Cmd),
}

/// What the sender does when no command is waiting.
pub enum Idle {
    /// These commands are to be sent now.
    Flush(Vec<Cmd>),
    /// Every command of the snapshot has reached the destination: the
    /// session has entered its last phase.
    SendDone,
    /// Nothing to do for the moment.
    Wait,
}

/// A copy of a list of commands.
pub fn copy_cmds(v: &Vec<Cmd>) -> (r: Vec<Cmd>)
    ensures
        cmds_view(r@) == cmds_view(v@),
{
    let mut out: Vec<Cmd> = Vec::new();
    let mut k: usize = 0;
    proof {
        lemma_cmds_view_empty();
        assert(cmds_view(v@).subrange(0, 0) =~= Seq::<Seq<ArgView>>::empty());
    }
    while k < v.len()
        invariant
            k <= v.len(),
            cmds_view(out@) == cmds_view(v@).subrange(0, k as int),
        decreases v.len() - k,
    {
        let c: Cmd = v[k].duplicate();
        proof {
            lemma_cmds_view_push(out@, c);
            assert(cmds_view(v@).subrange(0, k as int).push(cmds_view(v@)[k as int])
                =~= cmds_view(v@).subrange(0, k + 1));
        }
        out.push(c);
        k = k + 1;
    }
    assert(cmds_view(v@).subrange(0, k as int) =~= cmds_view(v@));
    out
}

impl View for Sender {
    type V = SenderView;

    closed spec fn view(&self) -> SenderView {
        SenderView {
            phase: self.phase,
            batch: Seq::new(
                self.batch@.len(),
                |i: int| Handed { cmd: self.batch@[i]@, tail: self.tags@[i] },
            ),
            awaiting: self.awaiting,
            blocked: self.blocked,
            last_select: self.last_select@,
            send_count: self.send_count,
            handed: self.handed@,
        }
    }
}

impl Sender {
    /// Whether the sender is in a state that its own operations leave it in.
    pub closed spec fn wf(&self) -> bool {
        self.tags@.len() == self.batch@.len() && self@.inv()
    }

    /// What `wf` says of the view.
    pub proof fn lemma_wf(&self)
        requires
            self.wf(),
        ensures
            self@.inv(),
    {
    }

    /// A sender at the start of a session.
    pub fn new() -> (s: Sender)
        ensures
            s.wf(),
            s@.phase == Phase::Reading,
            s@.batch.len() == 0,
            s@.handed.len() == 0,
            s@.last_select.len() == 0,
            s@.send_count == 0,
            s@.ready(),
    {
        Sender {
            phase: Phase::Reading,
            batch: Vec::new(),
            awaiting: false,
            blocked: false,
            last_select: Cmd::new(),
            send_count: 0,
            tags: Ghost(Seq::empty()),
            handed: Ghost(Seq::empty()),
        }
    }

    /// The phase of the session.
    pub fn phase(&self) -> (p: Phase)
        ensures
            p == self@.phase,
    {
        self.phase
    }

    /// How many commands have reached the destination.
    pub fn send_count(&self) -> (n: u64)
        ensures
            n == self@.send_count,
    {
        self.send_count
    }

    /// Whether the sender can hand out commands now.
    pub fn ready(&self) -> (b: bool)
        ensures
            b == self@.ready(),
    {
        !self.awaiting && !self.blocked
    }

    /// Whether the sender takes commands now.
    pub fn takes(&self) -> (b: bool)
        requires
            self.wf(),
        ensures
            b == self@.takes(),
    {
        !self.awaiting && !self.blocked && self.batch.len() < BATCH_MAX
    }

    /// Puts `cmd` into the batch and hands the batch out when it is full.
    fn enqueue(&mut self, cmd: Cmd, Ghost(tail): Ghost<bool>) -> (r: Option<Vec<Cmd>>)
        requires
            old(self).wf(),
            old(self)@.ready(),
            tail == (old(self)@.phase == Phase::SendDone),
            old(self)@.batch.len() < BATCH_MAX,
        ensures
            final(self).wf(),
            final(self)@.phase == old(self)@.phase,
            final(self)@.batch == old(self)@.batch.push(Handed { cmd: cmd@, tail }),
            final(self)@.last_select == old(self)@.last_select,
            final(self)@.send_count == old(self)@.send_count,
            !final(self)@.blocked,
            match r {
                None => final(self)@.batch.len() < BATCH_MAX && !final(self)@.awaiting && final(self)@.handed == old(self)@.handed,
                Some(out) => final(self)@.batch.len() == BATCH_MAX && final(self)@.awaiting
                    && cmds_view(out@) == cmds_of(final(self)@.batch) && final(self)@.handed
                    == old(self)@.handed + final(self)@.batch,
            },
    {
        let ghost before = self@;
        self.batch.push(cmd);
        self.tags = Ghost(self.tags@.push(tail));
        assert(self@.batch =~= before.batch.push(Handed { cmd: cmd@, tail }));
        if self.batch.len() >= BATCH_MAX {
            let out: Vec<Cmd> = copy_cmds(&self.batch);
            proof {
                lemma_handing_keeps_order(before.handed, self@.batch, tail);
                assert(cmds_view(out@) =~= cmds_of(self@.batch));
            }
            self.handed = Ghost(self.handed@ + self@.batch);
            self.awaiting = true;
            Some(out)
        } else {
            None
        }
    }

    /// Offers a command of the snapshot. It is taken while the snapshot is
    /// being read, the sender is ready and its batch has room.
    pub fn accept_full(&mut self, cmd: Cmd) -> (r: Accept)
        requires
            old(self).wf(),
        ensures
            final(self).wf(),
            final(self)@.phase == old(self)@.phase,
            final(self)@.last_select == old(self)@.last_select,
            final(self)@.send_count == old(self)@.send_count,
            final(self)@.blocked == old(self)@.blocked,
            if old(self)@.phase == Phase::Reading && old(self)@.takes() {
                &&& final(self)@.batch == old(self)@.batch.push(Handed { cmd: cmd@, tail: false })
                &&& match r {
                    Accept::Queued => final(self)@.batch.len() < BATCH_MAX && final(self)@.handed
                        == old(self)@.handed && !final(self)@.awaiting,
                    Accept::Flush(out) => final(self)@.batch.len() == BATCH_MAX && cmds_view(out@)
                        == cmds_of(final(self)@.batch) && final(self)@.handed == old(self)@.handed + final(self)@.batch && final(self)@.awaiting,
                    Accept::Refused(_) => false,
                }
            } else {
                r matches Accept::Refused(back) && back@ == cmd@ && final(self)@ == old(self)@
            },
    {
        if self.phase != Phase::Reading || self.awaiting || self.blocked || self.batch.len()
            >= BATCH_MAX {
            return Accept::Refused(cmd);
        }
        match self.enqueue(cmd, Ghost(false)) {
            Some(out) => Accept::Flush(out),
            None => Accept::Queued,
        }
    }

    /// Says that the snapshot has been decoded to its end and its checksum
    /// verified.
    pub fn read_done(&mut self)
        requires
            old(self).wf(),
        ensures
            final(self).wf(),
            final(self)@.phase == (if old(self)@.phase == Phase::Reading {
                Phase::ReadDone
            } else {
                old(self)@.phase
            }),
            final(self)@.batch == old(self)@.batch,
            final(self)@.handed == old(self)@.handed,
            final(self)@.awaiting == old(self)@.awaiting,
            final(self)@.blocked == old(self)@.blocked,
            final(self)@.last_select == old(self)@.last_select,
            final(self)@.send_count == old(self)@.send_count,
    {
        if self.phase == Phase::Reading {
            self.phase = Phase::ReadDone;
        }
    }

    /// Says that no command is waiting. A ready sender hands out what it
    /// holds. When it holds nothing and the snapshot has been read, the
    /// session enters its last phase.
    pub fn idle(&mut self) -> (r: Idle)
        requires
            old(self).wf(),
        ensures
            final(self).wf(),
            final(self)@.batch == old(self)@.batch,
            final(self)@.last_select == old(self)@.last_select,
            final(self)@.send_count == old(self)@.send_count,
            final(self)@.blocked == old(self)@.blocked,
            if !old(self)@.ready() {
                r is Wait && final(self)@ == old(self)@
            } else if old(self)@.batch.len() > 0 {
                r matches Idle::Flush(out) && cmds_view(out@) == cmds_of(old(self)@.batch)
                    && final(self)@.awaiting && final(self)@.phase == old(self)@.phase && final(self)@.handed == old(self)@.handed + old(self)@.batch
            } else if old(self)@.phase == Phase::ReadDone {
                r is SendDone && final(self)@.phase == Phase::SendDone && final(self)@.handed
                    == old(self)@.handed && !final(self)@.awaiting
            } else {
                r is Wait && final(self)@ == old(self)@
            },
    {
        if self.awaiting || self.blocked {
            return Idle::Wait;
        }
        let ghost before = self@;
        if self.batch.len() > 0 {
            let out: Vec<Cmd> = copy_cmds(&self.batch);
            proof {
                lemma_handing_keeps_order(
                    before.handed,
                    before.batch,
                    before.phase == Phase::SendDone,
                );
                assert(cmds_view(out@) =~= cmds_of(before.batch));
            }
            self.handed = Ghost(self.handed@ + self@.batch);
            self.awaiting = true;
            assert(self@.batch =~= before.batch);
            Idle::Flush(out)
        } else if self.phase == Phase::ReadDone {
            self.phase = Phase::SendDone;
            assert(self@.batch =~= before.batch);
            Idle::SendDone
        } else {
            Idle::Wait
        }
    }

    /// Offers a command of the stream behind the snapshot. It is taken in
    /// the last phase while the sender is ready and its batch has room. A
    /// command that selects a database is remembered.
    pub fn accept_tail(&mut self, pack: cmd_pack) -> (r: Accept)
        requires
            old(self).wf(),
        ensures
            final(self).wf(),
            final(self)@.phase == old(self)@.phase,
            final(self)@.send_count == old(self)@.send_count,
            final(self)@.blocked == old(self)@.blocked,
            if old(self)@.phase == Phase::SendDone && old(self)@.takes() {
                &&& final(self)@.batch == old(self)@.batch.push(
                    Handed { cmd: pack.cmd@, tail: true },
                )
                &&& final(self)@.last_select == (if same_ignoring_case(
                    pack.cmd_name@,
                    "select".spec_bytes(),
                ) {
                    pack.cmd@
                } else {
                    old(self)@.last_select
                })
                &&& match r {
                    Accept::Queued => final(self)@.batch.len() < BATCH_MAX && final(self)@.handed
                        == old(self)@.handed && !final(self)@.awaiting,
                    Accept::Flush(out) => final(self)@.batch.len() == BATCH_MAX && cmds_view(out@)
                        == cmds_of(final(self)@.batch) && final(self)@.handed == old(self)@.handed + final(self)@.batch && final(self)@.awaiting,
                    Accept::Refused(_) => false,
                }
            } else {
                r matches Accept::Refused(back) && back@ == pack.cmd@ && final(self)@ == old(self)@
            },
    {
        if self.phase != Phase::SendDone || self.awaiting || self.blocked || self.batch.len()
            >= BATCH_MAX {
            return Accept::Refused(pack.cmd);
        }
        if is_text_ignoring_case(&pack.cmd_name, "select") {
            self.last_select = pack.cmd.duplicate();
        }
        match self.enqueue(pack.cmd, Ghost(true)) {
            Some(out) => Accept::Flush(out),
            None => Accept::Queued,
        }
    }

    /// Says that the batch handed out last has reached the destination,
    /// whatever the destination answered to its commands.
    pub fn flushed(&mut self)
        requires
            old(self).wf(),
        ensures
            final(self).wf(),
            final(self)@.phase == old(self)@.phase,
            final(self)@.handed == old(self)@.handed,
            final(self)@.last_select == old(self)@.last_select,
            final(self)@.blocked == old(self)@.blocked,
            !final(self)@.awaiting,
            if old(self)@.awaiting {
                final(self)@.batch.len() == 0 && final(self)@.send_count == (if old(self)@.send_count + old(self)@.batch.len() > u64::MAX {
                    u64::MAX
                } else {
                    (old(self)@.send_count + old(self)@.batch.len()) as u64
                })
            } else {
                final(self)@ == old(self)@
            },
    {
        if self.awaiting {
            let n: u64 = self.batch.len() as u64;
            self.send_count = if n > 0xffff_ffff_ffff_ffff - self.send_count {
                0xffff_ffff_ffff_ffff
            } else {
                self.send_count + n
            };
            self.batch.clear();
            self.tags = Ghost(Seq::empty());
            self.awaiting = false;
        }
    }

    /// Says that the connection to the destination has failed. The sender
    /// keeps what it holds, the batch handed out last included, and hands
    /// nothing out until the connection has been made again.
    pub fn connection_lost(&mut self)
        requires
            old(self).wf(),
        ensures
            final(self).wf(),
            final(self)@.blocked,
            !final(self)@.awaiting,
            final(self)@.phase == old(self)@.phase,
            final(self)@.batch == old(self)@.batch,
            final(self)@.handed == old(self)@.handed,
            final(self)@.last_select == old(self)@.last_select,
            final(self)@.send_count == old(self)@.send_count,
    {
        self.awaiting = false;
        self.blocked = true;
    }

    /// Says that the connection to the destination has been made again. The
    /// command that selected a database last is handed out to be sent before
    /// anything else.
    pub fn reconnected(&mut self) -> (r: Option<Cmd>)
        requires
            old(self).wf(),
        ensures
            final(self).wf(),
            !final(self)@.blocked,
            final(self)@.awaiting == old(self)@.awaiting,
            final(self)@.phase == old(self)@.phase,
            final(self)@.batch == old(self)@.batch,
            final(self)@.last_select == old(self)@.last_select,
            final(self)@.send_count == old(self)@.send_count,
            if old(self)@.blocked && old(self)@.last_select.len() > 0 {
                r matches Some(select) && select@ == old(self)@.last_select && final(self)@.handed
                    == old(self)@.handed.push(
                    Handed { cmd: old(self)@.last_select, tail: true },
                )
            } else {
                r is None && final(self)@.handed == old(self)@.handed
            },
    {
        if !self.blocked {
            return None;
        }
        self.blocked = false;
        if self.last_select.is_empty() {
            return None;
        }
        let select: Cmd = self.last_select.duplicate();
        proof {
            let one = seq![Handed { cmd: select@, tail: true }];
            lemma_handing_keeps_order(self.handed@, one, true);
            assert(self.handed@ + one =~= self.handed@.push(Handed { cmd: select@, tail: true }));
        }
        self.handed = Ghost(self.handed@.push(Handed { cmd: select@, tail: true }));
        Some(select)
    }

    /// Says that the source has continued the stream after a drop. A ready
    /// sender hands out the command that selected a database last, to be
    /// sent before the commands that arrive from now on.
    pub fn resumed(&mut self) -> (r: Option<Cmd>)
        requires
            old(self).wf(),
        ensures
            final(self).wf(),
            final(self)@.blocked == old(self)@.blocked,
            final(self)@.awaiting == old(self)@.awaiting,
            final(self)@.phase == old(self)@.phase,
            final(self)@.batch == old(self)@.batch,
            final(self)@.last_select == old(self)@.last_select,
            final(self)@.send_count == old(self)@.send_count,
            if old(self)@.ready() && old(self)@.last_select.len() > 0 {
                r matches Some(select) && select@ == old(self)@.last_select && final(self)@.handed
                    == old(self)@.handed.push(
                    Handed { cmd: old(self)@.last_select, tail: true },
                )
            } else {
                r is None && final(self)@.handed == old(self)@.handed
            },
    {
        if self.awaiting || self.blocked || self.last_select.is_empty() {
            return None;
        }
        let select: Cmd = self.last_select.duplicate();
        proof {
            let one = seq![Handed { cmd: select@, tail: true }];
            lemma_handing_keeps_order(self.handed@, one, true);
            assert(self.handed@ + one =~= self.handed@.push(Handed { cmd: select@, tail: true }));
        }
        self.handed = Ghost(self.handed@.push(Handed { cmd: select@, tail: true }));
        Some(select)
    }
}

} // verus!
