//! What a command prints, line by line, and its status.
use vstd::prelude::*;

verus! {

/// Where a piece of output goes.
#[derive(Clone, Copy, Debug, PartialEq, Eq, Structural)]
pub enum Stream {
    Stdout,
    Stderr,
    /// The standard error of the shell itself, past redirections and scopes.
    ShellStderr,
}

/// A piece of output.
#[derive(Debug)]
pub struct Piece {
    pub stream: Stream,
    pub text: String,
}

/// What a command prints and its status.
#[derive(Debug)]
pub struct Printed {
    pub pieces: Vec<Piece>,
    pub status: i32,
}

/// The model of output: the stream and the text of each piece.
pub open spec fn pieces_of(v: Seq<Piece>) -> Seq<(Stream, Seq<char>)> {
    v.map_values(|p: Piece| (p.stream, p.text@))
}

pub broadcast proof fn lemma_pieces_push(v: Seq<Piece>, x: Piece)
    ensures
        #[trigger] pieces_of(v.push(x)) == pieces_of(v).push((x.stream, x.text@)),
{
    assert(pieces_of(v.push(x)) =~= pieces_of(v).push((x.stream, x.text@)));
}

/// Whether `r` prints these pieces and has this status.
pub open spec fn prints(r: Printed, pieces: Seq<(Stream, Seq<char>)>, status: i32) -> bool {
    pieces_of(r.pieces@) == pieces && r.status == status
}

impl Printed {
    /// Nothing printed yet, and no failure.
    pub fn new() -> (r: Printed)
        ensures
            prints(r, Seq::empty(), 0),
    {
        let pieces: Vec<Piece> = Vec::new();
        assert(pieces_of(pieces@) =~= Seq::empty());
        Printed { pieces, status: 0 }
    }

    /// Prints to standard output.
    pub fn out(&mut self, text: String)
        ensures
            prints(
                *final(self),
                pieces_of(old(self).pieces@).push((Stream::Stdout, text@)),
                old(self).status,
            ),
    {
        broadcast use lemma_pieces_push;
        self.pieces.push(Piece { stream: Stream::Stdout, text });
    }

    /// Prints to standard error.
    pub fn err(&mut self, text: String)
        ensures
            prints(
                *final(self),
                pieces_of(old(self).pieces@).push((Stream::Stderr, text@)),
                old(self).status,
            ),
    {
        broadcast use lemma_pieces_push;
        self.pieces.push(Piece { stream: Stream::Stderr, text });
    }

    /// A failure with one message on the standard error of the shell itself.
    pub fn shell_failure(text: String) -> (r: Printed)
        ensures
            prints(r, seq![(Stream::ShellStderr, text@)], 1),
    {
        let mut pieces: Vec<Piece> = Vec::new();
        pieces.push(Piece { stream: Stream::ShellStderr, text });
        assert(pieces_of(pieces@) =~= seq![(Stream::ShellStderr, text@)]);
        Printed { pieces, status: 1 }
    }

    /// A failure with one message.
    pub fn failure(text: String) -> (r: Printed)
        ensures
            prints(r, seq![(Stream::Stderr, text@)], 1),
    {
        let mut r = Printed::new();
        r.err(text);
        r.status = 1;
        assert(pieces_of(r.pieces@) =~= seq![(Stream::Stderr, text@)]);
        r
    }
}

} // verus!
