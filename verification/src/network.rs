//! Request headers, as the inbound surface hands them to the engine: only
//! membership by name is ever asked of them.

use vstd::prelude::*;

verus! {

/// One request header: a name and a value.
pub struct Header {
    name: String,
    value: String,
}

#[verifier::ext_equal]
pub struct HeaderView {
    pub name: Seq<char>,
    pub value: Seq<char>,
}

impl View for Header {
    type V = HeaderView;

    closed spec fn view(&self) -> HeaderView {
        HeaderView { name: self.name@, value: self.value@ }
    }
}

impl Header {
    pub fn new(name: String, value: String) -> (r: Self)
        ensures
            r@ == (HeaderView { name: name@, value: value@ }),
    {
        Header { name, value }
    }
}

/// The headers of one request.
pub struct Headers {
    headers: Vec<Header>,
}

impl View for Headers {
    type V = Seq<HeaderView>;

    closed spec fn view(&self) -> Seq<HeaderView> {
        self.headers@.map_values(|h: Header| h@)
    }
}

impl Headers {
    pub fn new(headers: Vec<Header>) -> (r: Self)
        ensures
            r@ == headers@.map_values(|h: Header| h@),
    {
        Headers { headers }
    }

    /// Whether any header has the given name.
    pub fn contains(&self, name: String) -> (r: bool)
        ensures
            r == exists|i: int| 0 <= i < self@.len() && (#[trigger] self@[i]).name == name@,
    {
        let n = self.headers.len();
        let mut i: usize = 0;
        while i < n
            invariant
                n == self@.len(),
                n == self.headers@.len(),
                i <= n,
                forall|k: int| 0 <= k < i ==> (#[trigger] self@[k]).name != name@,
            decreases n - i,
        {
            if self.headers[i].name == name {
                proof {
                    assert(self@[i as int].name == name@);
                }
                return true;
            }
            i += 1;
        }
        false
    }
}

} // verus!
