use vstd::prelude::*;

verus! {

/// The size of the chunks a file is read in.
pub const DEFAULT_BUF_SIZE: usize = 65536;

/// The bytes read from one file.
pub struct Scanner {
    contents: Vec<u8>,
}

impl View for Scanner {
    type V = Seq<u8>;

    closed spec fn view(&self) -> Seq<u8> {
        self.contents@
    }
}

impl Scanner {
    /// A scanner that has read nothing.
    pub fn new() -> (s: Self)
        ensures
            s@ == Seq::<u8>::empty(),
    {
        Scanner { contents: Vec::new() }
    }

    /// The bytes read so far.
    pub fn get_contents(&mut self) -> (r: &Vec<u8>)
        ensures
            r@ == old(self)@,
            final(self)@ == old(self)@,
    {
        &self.contents
    }

    /// The number of bytes read so far.
    pub fn get_contents_size(&mut self) -> (n: usize)
        ensures
            n == old(self)@.len(),
            final(self)@ == old(self)@,
    {
        self.contents.len()
    }

    /// The bytes read so far, through a shared borrow.
    pub fn contents(&self) -> (r: &Vec<u8>)
        ensures
            r@ == self@,
    {
        &self.contents
    }

    /// Takes in the next chunk read from the file; tells whether the chunk filled the
    /// read buffer, so that more may follow.
    pub fn scan_chunk(&mut self, chunk: &[u8]) -> (more: bool)
        ensures
            final(self)@ == old(self)@ + chunk@,
            more == (chunk@.len() >= DEFAULT_BUF_SIZE),
    {
        let mut b: usize = 0;
        while b < chunk.len()
            invariant
                b <= chunk.len(),
                self@ == old(self)@ + chunk@.take(b as int),
            decreases chunk.len() - b,
        {
            self.contents.push(chunk[b]);
            assert(chunk@.take(b + 1) =~= chunk@.take(b as int).push(chunk@[b as int]));
            b = b + 1;
        }
        assert(chunk@.take(b as int) =~= chunk@);
        !(chunk.len() < DEFAULT_BUF_SIZE)
    }
}

} // verus!
