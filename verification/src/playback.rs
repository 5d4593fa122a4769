//! The cursor of baud-rate playback: how much of a text/RIP stream has been
//! "typed out" so far, and whether it is still typing.

use vstd::prelude::*;

verus! {

/// Position in a stream of `len` units (bytes or cells) and whether playback is
/// running.
pub struct PlayCursor {
    len: usize,
    pos: usize,
    playing: bool,
}

impl PlayCursor {
    /// The stream's length.
    pub closed spec fn len_spec(&self) -> nat {
        self.len as nat
    }

    /// How many units are revealed.
    pub closed spec fn pos_spec(&self) -> nat {
        self.pos as nat
    }

    /// Whether playback is running.
    pub closed spec fn playing_spec(&self) -> bool {
        self.playing
    }

    /// The cursor never passes the end.
    pub closed spec fn well_formed(&self) -> bool {
        self.pos <= self.len
    }

    /// A cursor over `len` units: at the start and playing when `autoplay`,
    /// otherwise at the end (the whole piece shown) and stopped.
    pub fn new(len: usize, autoplay: bool) -> (c: PlayCursor)
        ensures
            c.well_formed(),
            c.len_spec() == len,
            c.pos_spec() == (if autoplay { 0 } else { len as nat }),
            c.playing_spec() == autoplay,
    {
        PlayCursor { len, pos: if autoplay { 0 } else { len }, playing: autoplay }
    }

    /// Units revealed.
    pub fn pos(&self) -> (p: usize)
        ensures
            p == self.pos_spec(),
    {
        self.pos
    }

    /// The stream's length.
    pub fn len(&self) -> (n: usize)
        ensures
            n == self.len_spec(),
    {
        self.len
    }

    /// Whether playback is running.
    pub fn playing(&self) -> (b: bool)
        ensures
            b == self.playing_spec(),
    {
        self.playing
    }

    /// One tick of playback: while playing, reveal `step` more units (`None`
    /// reveals everything at once), stopping at the end; playback stops once the
    /// end is reached. A stopped cursor does not move.
    pub fn advance(&mut self, step: Option<usize>)
        requires
            old(self).well_formed(),
        ensures
            final(self).well_formed(),
            final(self).len_spec() == old(self).len_spec(),
            !old(self).playing_spec() ==> final(self).pos_spec() == old(self).pos_spec()
                && !final(self).playing_spec(),
            old(self).playing_spec() ==> final(self).pos_spec() == match step {
                Some(s) => if old(self).pos_spec() + s < old(self).len_spec() {
                    old(self).pos_spec() + s
                } else {
                    old(self).len_spec() as int
                },
                None => old(self).len_spec() as int,
            } && final(self).playing_spec() == (final(self).pos_spec() < final(self).len_spec()),
    {
        if !self.playing {
            return;
        }
        match step {
            Some(s) => {
                let room = self.len - self.pos;
                self.pos = if s < room { self.pos + s } else { self.len };
            },
            None => {
                self.pos = self.len;
            },
        }
        if self.pos >= self.len {
            self.playing = false;
        }
    }
}

} // verus!
