//! The decisions of an editor session: which buffer a request is about,
//! which buffers are open, and which one the next request without a buffer
//! id goes to. The server reads requests and builds buffers; it asks a
//! `Session` what to do with each request and tells it what happened.

use vstd::prelude::*;

verus! {

/// A request, with what the session needs to know of it.
#[derive(Clone, Copy, Debug, PartialEq, Eq, Structural)]
pub enum RpcCommand {
    /// Open a buffer; `text_empty` says whether the request brought no text.
    Open { text_empty: bool },
    /// Edit a buffer; `has_delta` says whether the request carries the edit.
    Edit { has_delta: bool },
    Status,
    Inspect,
    Graph,
    Stats,
    Close,
    Reset,
    Ping,
    Unknown,
}

/// What the server does with a request.
#[derive(Clone, Copy, Debug, PartialEq, Eq, Structural)]
pub enum SessionAction {
    /// Answer that the buffer stays open: an empty open does not wipe a
    /// buffer that holds text.
    KeepOpen(u64),
    /// Build the buffer from the request's text, then report it with
    /// `Session::opened`.
    Open(u64),
    /// Apply the edit to the buffer, then report its text with
    /// `Session::text_changed`.
    Edit(u64),
    Status(u64),
    Inspect(u64),
    Graph(u64),
    Stats(u64),
    /// The buffer was closed.
    Closed(u64),
    /// The buffer, or every buffer, was dropped.
    Reset(u64),
    Pong(u64),
    /// The request names no delta.
    MissingDelta,
    /// The request is about a buffer that is not open.
    NoBuffer,
    /// The command is not known.
    Unknown,
}

/// The buffer a request is about: the one it names, else the last one used,
/// else buffer 1.
pub open spec fn chosen_buf(named: Option<u64>, last: Option<u64>) -> u64 {
    match named {
        Some(b) => b,
        None => match last {
            Some(b) => b,
            None => 1,
        },
    }
}

/// The open buffers, whether each holds text, and the buffer used last.
pub struct Session {
    ids: Vec<u64>,
    texts: Vec<bool>,
    last: Option<u64>,
}

impl Session {
    /// Each buffer is open once and has one text flag.
    pub closed spec fn wf(&self) -> bool {
        &&& self.ids@.len() == self.texts@.len()
        &&& forall|i: int, j: int| 0 <= i < j < self.ids@.len() ==> self.ids@[i] != self.ids@[j]
    }

    /// The open buffers, in the order they were opened.
    pub closed spec fn open_ids(&self) -> Seq<u64> {
        self.ids@
    }

    /// Buffer `b` is open and holds text.
    pub closed spec fn holds_text(&self, b: u64) -> bool {
        exists|i: int| 0 <= i < self.ids@.len() && self.ids@[i] == b && self.texts@[i]
    }

    /// The buffer used last.
    pub closed spec fn last_buf(&self) -> Option<u64> {
        self.last
    }

    /// No buffer open, none used.
    pub fn new() -> (s: Session)
        ensures
            s.wf(),
            s.open_ids().len() == 0,
            s.last_buf() is None,
    {
        Session { ids: Vec::new(), texts: Vec::new(), last: None }
    }

    fn position(&self, b: u64) -> (r: Option<usize>)
        requires
            self.wf(),
        ensures
            match r {
                Some(i) => i < self.ids@.len() && self.ids@[i as int] == b,
                None => !self.ids@.contains(b),
            },
    {
        let mut i: usize = 0;
        while i < self.ids.len()
            invariant
                i <= self.ids@.len(),
                forall|k: int| 0 <= k < i ==> self.ids@[k] != b,
            decreases self.ids@.len() - i,
        {
            if self.ids[i] == b {
                return Some(i);
            }
            i = i + 1;
        }
        None
    }

    fn has_text(&self, b: u64) -> (r: bool)
        requires
            self.wf(),
        ensures
            r == self.holds_text(b),
    {
        match self.position(b) {
            Some(i) => {
                proof {
                    if self.holds_text(b) {
                        let j = choose|j: int| 0 <= j < self.ids@.len() && self.ids@[j] == b && self.texts@[j];
                        assert(j == i as int);
                    }
                }
                self.texts[i]
            },
            None => false,
        }
    }

    /// Drop buffer `b`; when it was the last one used, the first buffer
    /// still open becomes the last one used.
    fn drop_buf(&mut self, b: u64)
        requires
            old(self).wf(),
        ensures
            final(self).wf(),
            forall|x: u64| #[trigger] final(self).open_ids().contains(x) <==> (old(self).open_ids().contains(x) && x != b),
            forall|x: u64| x != b ==> (#[trigger] final(self).holds_text(x) == old(self).holds_text(x)),
            !final(self).holds_text(b),
            final(self).last_buf() == (if old(self).last_buf() == Some(b) {
                if final(self).open_ids().len() > 0 { Some(final(self).open_ids()[0]) } else { None }
            } else {
                old(self).last_buf()
            }),
    {
        let ghost ids0 = self.ids@;
        let ghost texts0 = self.texts@;
        if let Some(i) = self.position(b) {
            self.ids.remove(i);
            self.texts.remove(i);
            proof {
                assert forall|p: int, q: int| 0 <= p < q < self.ids@.len() implies self.ids@[p] != self.ids@[q] by {
                    let p0 = if p < i { p } else { p + 1 };
                    let q0 = if q < i { q } else { q + 1 };
                    assert(self.ids@[p] == ids0[p0] && self.ids@[q] == ids0[q0]);
                }
                assert forall|x: u64| #[trigger] self.ids@.contains(x) <==> (ids0.contains(x) && x != b) by {
                    if self.ids@.contains(x) {
                        let k = choose|k: int| 0 <= k < self.ids@.len() && self.ids@[k] == x;
                        let k0 = if k < i { k } else { k + 1 };
                        assert(ids0[k0] == x);
                        assert(k0 != i);
                    }
                    if ids0.contains(x) && x != b {
                        let k0 = choose|k: int| 0 <= k < ids0.len() && ids0[k] == x;
                        assert(k0 != i);
                        let k = if k0 < i { k0 } else { k0 - 1 };
                        assert(self.ids@[k] == x);
                    }
                }
                assert forall|x: u64| #[trigger] self.holds_text(x) <==> (x != b && (exists|k: int| 0 <= k < ids0.len() && ids0[k] == x && texts0[k])) by {
                    if self.holds_text(x) {
                        let k = choose|k: int| 0 <= k < self.ids@.len() && self.ids@[k] == x && self.texts@[k];
                        let k0 = if k < i { k } else { k + 1 };
                        assert(ids0[k0] == x && texts0[k0]);
                        assert(k0 != i);
                    }
                    if x != b && (exists|k: int| 0 <= k < ids0.len() && ids0[k] == x && texts0[k]) {
                        let k0 = choose|k: int| 0 <= k < ids0.len() && ids0[k] == x && texts0[k];
                        assert(k0 != i);
                        let k = if k0 < i { k0 } else { k0 - 1 };
                        assert(self.ids@[k] == x && self.texts@[k]);
                    }
                }
            }
        } else {
            proof {
                assert forall|x: u64| x != b implies #[trigger] self.holds_text(x) == old(self).holds_text(x) by {}
                if self.holds_text(b) {
                    let k = choose|k: int| 0 <= k < self.ids@.len() && self.ids@[k] == b && self.texts@[k];
                    assert(self.ids@.contains(b));
                }
            }
        }
        let ghost mid = *self;
        if self.last == Some(b) {
            self.last = if self.ids.len() > 0 { Some(self.ids[0]) } else { None };
        }
        proof {
            assert(self.ids@ == mid.ids@ && self.texts@ == mid.texts@);
            assert forall|x: u64| #[trigger] self.holds_text(x) == mid.holds_text(x) by {
                if mid.holds_text(x) {
                    let k = choose|k: int| 0 <= k < mid.ids@.len() && mid.ids@[k] == x && mid.texts@[k];
                    assert(self.ids@[k] == x && self.texts@[k]);
                }
                if self.holds_text(x) {
                    let k = choose|k: int| 0 <= k < self.ids@.len() && self.ids@[k] == x && self.texts@[k];
                    assert(mid.ids@[k] == x && mid.texts@[k]);
                }
            }
        }
    }

    /// Decide what a request for buffer `named` (or none) with `cmd` leads
    /// to, and keep the session's own state up to date.
    pub fn step(&mut self, named: Option<u64>, cmd: RpcCommand) -> (a: SessionAction)
        requires
            old(self).wf(),
        ensures
            final(self).wf(),
            ({
                let b = chosen_buf(named, old(self).last_buf());
                let open = old(self).open_ids().contains(b);
                match cmd {
                    RpcCommand::Open { text_empty } => if text_empty && old(self).holds_text(b) {
                        &&& a == SessionAction::KeepOpen(b)
                        &&& final(self).open_ids() == old(self).open_ids()
                        &&& forall|x: u64| #[trigger] final(self).holds_text(x) == old(self).holds_text(x)
                        &&& final(self).last_buf() == Some(b)
                    } else {
                        a == SessionAction::Open(b) && *final(self) == *old(self)
                    },
                    RpcCommand::Edit { has_delta } => if !has_delta {
                        a == SessionAction::MissingDelta && *final(self) == *old(self)
                    } else if !open {
                        a == SessionAction::NoBuffer && *final(self) == *old(self)
                    } else {
                        &&& a == SessionAction::Edit(b)
                        &&& final(self).open_ids() == old(self).open_ids()
                        &&& forall|x: u64| #[trigger] final(self).holds_text(x) == old(self).holds_text(x)
                        &&& final(self).last_buf() == Some(b)
                    },
                    RpcCommand::Status => a == (if open { SessionAction::Status(b) } else { SessionAction::NoBuffer }) && *final(self) == *old(self),
                    RpcCommand::Inspect => a == (if open { SessionAction::Inspect(b) } else { SessionAction::NoBuffer }) && *final(self) == *old(self),
                    RpcCommand::Graph => a == (if open { SessionAction::Graph(b) } else { SessionAction::NoBuffer }) && *final(self) == *old(self),
                    RpcCommand::Stats => a == (if open { SessionAction::Stats(b) } else { SessionAction::NoBuffer }) && *final(self) == *old(self),
                    RpcCommand::Close => dropped(*old(self), *final(self), b) && a == SessionAction::Closed(b),
                    RpcCommand::Reset => a == SessionAction::Reset(b) && if named is Some {
                        dropped(*old(self), *final(self), b)
                    } else {
                        &&& final(self).open_ids().len() == 0
                        &&& final(self).last_buf() is None
                    },
                    RpcCommand::Ping => a == SessionAction::Pong(b) && *final(self) == *old(self),
                    RpcCommand::Unknown => a == SessionAction::Unknown && *final(self) == *old(self),
                }
            }),
    {
        let b = match named {
            Some(x) => x,
            None => match self.last {
                Some(x) => x,
                None => 1,
            },
        };
        match cmd {
            RpcCommand::Open { text_empty } => {
                if text_empty && self.has_text(b) {
                    self.last = Some(b);
                    SessionAction::KeepOpen(b)
                } else {
                    SessionAction::Open(b)
                }
            },
            RpcCommand::Edit { has_delta } => {
                if !has_delta {
                    SessionAction::MissingDelta
                } else if self.position(b).is_none() {
                    SessionAction::NoBuffer
                } else {
                    self.last = Some(b);
                    SessionAction::Edit(b)
                }
            },
            RpcCommand::Status => if self.position(b).is_some() { SessionAction::Status(b) } else { SessionAction::NoBuffer },
            RpcCommand::Inspect => if self.position(b).is_some() { SessionAction::Inspect(b) } else { SessionAction::NoBuffer },
            RpcCommand::Graph => if self.position(b).is_some() { SessionAction::Graph(b) } else { SessionAction::NoBuffer },
            RpcCommand::Stats => if self.position(b).is_some() { SessionAction::Stats(b) } else { SessionAction::NoBuffer },
            RpcCommand::Close => {
                self.drop_buf(b);
                SessionAction::Closed(b)
            },
            RpcCommand::Reset => {
                if named.is_some() {
                    self.drop_buf(b);
                } else {
                    self.ids = Vec::new();
                    self.texts = Vec::new();
                    self.last = None;
                }
                SessionAction::Reset(b)
            },
            RpcCommand::Ping => SessionAction::Pong(b),
            RpcCommand::Unknown => SessionAction::Unknown,
        }
    }

    /// Buffer `b` was built; `has_text` says whether its text is not empty.
    /// It is open from now on and the last one used.
    pub fn opened(&mut self, b: u64, has_text: bool)
        requires
            old(self).wf(),
        ensures
            final(self).wf(),
            forall|x: u64| #[trigger] final(self).open_ids().contains(x) <==> (old(self).open_ids().contains(x) || x == b),
            final(self).holds_text(b) == has_text,
            forall|x: u64| x != b ==> (#[trigger] final(self).holds_text(x) == old(self).holds_text(x)),
            final(self).last_buf() == Some(b),
    {
        self.set_text(b, has_text);
        let ghost mid = *self;
        self.last = Some(b);
        proof {
            assert(self.ids@ == mid.ids@ && self.texts@ == mid.texts@);
            assert forall|x: u64| #[trigger] self.holds_text(x) == mid.holds_text(x) by {
                if mid.holds_text(x) {
                    let k = choose|k: int| 0 <= k < mid.ids@.len() && mid.ids@[k] == x && mid.texts@[k];
                    assert(self.ids@[k] == x && self.texts@[k]);
                }
                if self.holds_text(x) {
                    let k = choose|k: int| 0 <= k < self.ids@.len() && self.ids@[k] == x && self.texts@[k];
                    assert(mid.ids@[k] == x && mid.texts@[k]);
                }
            }
            assert forall|x: u64| #[trigger] self.open_ids().contains(x) <==> (old(self).open_ids().contains(x) || x == b) by {
                if !old(self).open_ids().contains(b) {
                    if self.open_ids().contains(x) {
                        let k = choose|k: int| 0 <= k < self.open_ids().len() && self.open_ids()[k] == x;
                        if k < old(self).open_ids().len() {
                            assert(old(self).open_ids()[k] == x);
                        }
                    }
                    if old(self).open_ids().contains(x) {
                        let k = choose|k: int| 0 <= k < old(self).open_ids().len() && old(self).open_ids()[k] == x;
                        assert(self.open_ids()[k] == x);
                    }
                    assert(self.open_ids()[old(self).open_ids().len() as int] == b);
                }
            }
        }
    }

    /// The text of buffer `b` changed; `has_text` says whether it is not
    /// empty. Nothing happens for a buffer that is not open.
    pub fn text_changed(&mut self, b: u64, has_text: bool)
        requires
            old(self).wf(),
        ensures
            final(self).wf(),
            final(self).open_ids() == old(self).open_ids(),
            old(self).open_ids().contains(b) ==> final(self).holds_text(b) == has_text,
            !old(self).open_ids().contains(b) ==> !final(self).holds_text(b),
            forall|x: u64| x != b ==> (#[trigger] final(self).holds_text(x) == old(self).holds_text(x)),
            final(self).last_buf() == old(self).last_buf(),
    {
        if self.position(b).is_some() {
            self.set_text(b, has_text);
        } else {
            proof {
                if self.holds_text(b) {
                    let k = choose|k: int| 0 <= k < self.ids@.len() && self.ids@[k] == b && self.texts@[k];
                    assert(self.ids@.contains(b));
                }
            }
        }
    }

    fn set_text(&mut self, b: u64, has_text: bool)
        requires
            old(self).wf(),
        ensures
            final(self).wf(),
            old(self).open_ids().contains(b) ==> final(self).open_ids() == old(self).open_ids(),
            !old(self).open_ids().contains(b) ==> final(self).open_ids() == old(self).open_ids().push(b),
            final(self).holds_text(b) == has_text,
            forall|x: u64| x != b ==> (#[trigger] final(self).holds_text(x) == old(self).holds_text(x)),
            final(self).last_buf() == old(self).last_buf(),
    {
        let ghost ids0 = self.ids@;
        let ghost texts0 = self.texts@;
        match self.position(b) {
            Some(i) => {
                self.texts.set(i, has_text);
                proof {
                    assert forall|x: u64| x != b implies (#[trigger] self.holds_text(x) == old(self).holds_text(x)) by {
                        if self.holds_text(x) {
                            let k = choose|k: int| 0 <= k < self.ids@.len() && self.ids@[k] == x && self.texts@[k];
                            assert(texts0[k]);
                        }
                        if old(self).holds_text(x) {
                            let k = choose|k: int| 0 <= k < ids0.len() && ids0[k] == x && texts0[k];
                            assert(self.texts@[k]);
                        }
                    }
                    if self.holds_text(b) {
                        let k = choose|k: int| 0 <= k < self.ids@.len() && self.ids@[k] == b && self.texts@[k];
                        assert(k == i as int);
                    }
                    if has_text {
                        assert(self.ids@[i as int] == b && self.texts@[i as int]);
                    }
                }
            },
            None => {
                self.ids.push(b);
                self.texts.push(has_text);
                proof {
                    let n = ids0.len() as int;
                    assert(self.ids@[n] == b);
                    assert forall|p: int, q: int| 0 <= p < q < self.ids@.len() implies self.ids@[p] != self.ids@[q] by {
                        if q == n {
                            assert(ids0.contains(ids0[p]));
                        }
                    }
                    assert forall|x: u64| x != b implies (#[trigger] self.holds_text(x) == old(self).holds_text(x)) by {
                        if self.holds_text(x) {
                            let k = choose|k: int| 0 <= k < self.ids@.len() && self.ids@[k] == x && self.texts@[k];
                            assert(k < n);
                            assert(ids0[k] == x && texts0[k]);
                        }
                        if old(self).holds_text(x) {
                            let k = choose|k: int| 0 <= k < ids0.len() && ids0[k] == x && texts0[k];
                            assert(self.ids@[k] == x && self.texts@[k]);
                        }
                    }
                    if self.holds_text(b) {
                        let k = choose|k: int| 0 <= k < self.ids@.len() && self.ids@[k] == b && self.texts@[k];
                        if k < n {
                            assert(ids0.contains(b));
                        }
                    }
                    if has_text {
                        assert(self.ids@[n] == b && self.texts@[n]);
                    }
                }
            },
        }
    }
}

/// `after` is `before` with buffer `b` closed: every other buffer keeps its
/// place and text; when `b` was the last one used, the first buffer still
/// open (if any) becomes the last one used.
pub open spec fn dropped(before: Session, after: Session, b: u64) -> bool {
    &&& forall|x: u64| #[trigger] after.open_ids().contains(x) <==> (before.open_ids().contains(x) && x != b)
    &&& forall|x: u64| x != b ==> (#[trigger] after.holds_text(x) == before.holds_text(x))
    &&& !after.holds_text(b)
    &&& after.last_buf() == (if before.last_buf() == Some(b) {
        if after.open_ids().len() > 0 { Some(after.open_ids()[0]) } else { None }
    } else {
        before.last_buf()
    })
}

} // verus!
