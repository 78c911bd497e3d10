//! A set of connected peers, named by their address, kept in order of
//! arrival.

use vstd::prelude::*;

verus! {

/// No address is listed twice.
pub open spec fn names_distinct(w: Seq<String>) -> bool {
    forall|i: int, j: int|
        0 <= i < w.len() && 0 <= j < w.len() && i != j ==> (#[trigger] w[i])@ != (#[trigger] w[j])@
}

/// The address is listed.
pub open spec fn has_name(w: Seq<String>, addr: Seq<char>) -> bool {
    exists|i: int| 0 <= i < w.len() && (#[trigger] w[i])@ == addr
}

/// Where the address is listed.
pub open spec fn name_pos(w: Seq<String>, addr: Seq<char>) -> int {
    choose|i: int| 0 <= i < w.len() && (#[trigger] w[i])@ == addr
}

/// The line the chat hub sends to peer `id` for a message `msg`.
pub open spec fn broadcast_line(id: Seq<char>, msg: Seq<char>) -> Seq<char> {
    "Broadcast desde el Hub para "@ + id + ": "@ + msg
}

/// Connected peers.
pub struct Registry {
    names: Vec<String>,
}

impl Registry {
    /// The listed addresses, in order of arrival.
    pub closed spec fn names(&self) -> Seq<String> {
        self.names@
    }

    /// Every address is listed once.
    pub open spec fn wf(&self) -> bool {
        names_distinct(self.names())
    }

    /// No peer.
    pub fn new() -> (r: Registry)
        ensures
            r.wf(),
            r.names().len() == 0,
    {
        Registry { names: Vec::new() }
    }

    /// Where `addr` is listed, if it is.
    pub fn find(&self, addr: &String) -> (r: Option<usize>)
        requires
            self.wf(),
        ensures
            match r {
                Some(i) => i < self.names().len() && self.names()[i as int]@ == addr@ && i
                    == name_pos(self.names(), addr@) && has_name(self.names(), addr@),
                None => !has_name(self.names(), addr@),
            },
    {
        let mut i: usize = 0;
        while i < self.names.len()
            invariant
                i <= self.names@.len(),
                self.wf(),
                forall|k: int| 0 <= k < i ==> (#[trigger] self.names@[k])@ != addr@,
            decreases self.names@.len() - i,
        {
            if self.names[i] == *addr {
                assert(self.names()[i as int]@ == addr@);
                assert(has_name(self.names(), addr@));
                assert(name_pos(self.names(), addr@) == i as int);
                return Some(i);
            }
            i = i + 1;
        }
        None
    }

    /// Lists a peer; an address already listed stays as it is.
    pub fn insert(&mut self, addr: String)
        requires
            old(self).wf(),
        ensures
            final(self).wf(),
            final(self).names() == if has_name(old(self).names(), addr@) {
                old(self).names()
            } else {
                old(self).names().push(addr)
            },
    {
        match self.find(&addr) {
            Some(_) => {},
            None => {
                self.names.push(addr);
            },
        }
    }

    /// Forgets a peer.
    pub fn remove(&mut self, addr: &String)
        requires
            old(self).wf(),
        ensures
            final(self).wf(),
            final(self).names() == if has_name(old(self).names(), addr@) {
                old(self).names().remove(name_pos(old(self).names(), addr@))
            } else {
                old(self).names()
            },
    {
        match self.find(addr) {
            Some(i) => {
                self.names.remove(i);
            },
            None => {},
        }
    }

    /// Number of listed peers.
    pub fn len(&self) -> (n: usize)
        ensures
            n == self.names().len(),
    {
        self.names.len()
    }

    /// For every listed peer, its address and the line to send it.
    pub fn broadcast(&self, msg: &str) -> (out: Vec<(String, String)>)
        ensures
            out@.len() == self.names().len(),
            forall|i: int|
                0 <= i < out@.len() ==> (#[trigger] out@[i]).0@ == self.names()[i]@ && out@[i].1@
                    == broadcast_line(self.names()[i]@, msg@),
    {
        let mut out: Vec<(String, String)> = Vec::with_capacity(self.names.len());
        let mut i: usize = 0;
        while i < self.names.len()
            invariant
                i <= self.names@.len(),
                out@.len() == i,
                forall|k: int|
                    0 <= k < i ==> (#[trigger] out@[k]).0@ == self.names@[k]@ && out@[k].1@
                        == broadcast_line(self.names@[k]@, msg@),
            decreases self.names@.len() - i,
        {
            let mut line = "Broadcast desde el Hub para ".to_string();
            line.append(self.names[i].as_str());
            line.append(": ");
            line.append(msg);
            out.push((self.names[i].clone(), line));
            i = i + 1;
        }
        out
    }
}

/// A peer that connects and then leaves leaves the list as it was.
pub proof fn lemma_insert_then_remove(w: Seq<String>, addr: String)
    requires
        names_distinct(w),
        !has_name(w, addr@),
    ensures
        has_name(w.push(addr), addr@),
        w.push(addr).remove(name_pos(w.push(addr), addr@)) == w,
{
    let v = w.push(addr);
    assert(v[w.len() as int]@ == addr@);
    assert(has_name(v, addr@));
    let q = name_pos(v, addr@);
    assert(v[q]@ == addr@);
    assert(q == w.len());
    assert(v.remove(q) =~= w);
}

} // verus!
