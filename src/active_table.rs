use vstd::prelude::*;

verus! {

/// The page table loaded into the translation hardware, named by its
/// token. There is one per core; holding it `&mut` is holding its lock.
pub struct ActiveTable {
    token: usize,
}

impl View for ActiveTable {
    type V = usize;

    closed spec fn view(&self) -> usize {
        self.token
    }
}

impl ActiveTable {
    /// The table that the hardware has loaded at boot.
    pub fn new(token: usize) -> (r: ActiveTable)
        ensures
            r@ == token,
    {
        ActiveTable { token }
    }

    /// Token of the loaded table.
    pub fn token(&self) -> (r: usize)
        ensures
            r == self@,
    {
        self.token
    }

    /// Whether the table named `token` is the loaded one.
    pub fn is_active(&self, token: usize) -> (r: bool)
        ensures
            r == (self@ == token),
    {
        self.token == token
    }

    /// Loads the table named `token` and gives the token of the one it
    /// replaces. Taking `&mut self` ends every borrow of the previous one.
    pub fn switch(&mut self, token: usize) -> (r: usize)
        ensures
            r == old(self)@,
            final(self)@ == token,
    {
        let previous = self.token;
        self.token = token;
        previous
    }
}

} // verus!
