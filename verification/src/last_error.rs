//! The message of the most recent failure.
use vstd::prelude::*;
use vstd::string::*;
use vstd::utf8::*;

verus! {

/// The message of the most recent failure, empty before the first one.
pub struct LastError {
    message: String,
}

impl View for LastError {
    type V = Seq<char>;

    closed spec fn view(&self) -> Seq<char> {
        self.message@
    }
}

impl LastError {
    /// No failure yet.
    pub fn new() -> (r: Self)
        ensures
            r@ == Seq::<char>::empty(),
    {
        LastError { message: String::new() }
    }
}

/// Replaces the message by `msg`.
pub fn set_last_error(last: &mut LastError, msg: &str)
    ensures
        final(last)@ == msg@,
{
    last.message = msg.to_owned();
}

/// `bytes` without its zero bytes.
pub open spec fn without_nul(bytes: Seq<u8>) -> Seq<u8> {
    bytes.filter(|b: u8| b != 0)
}

/// Dropping zero bytes drops nothing else and keeps the order: a byte stays if it is not zero,
/// and what is left of two pieces is what is left of each, one behind the other.
pub proof fn law_only_zeros_are_dropped(a: Seq<u8>, b: Seq<u8>, x: u8)
    ensures
        without_nul(a + b) == without_nul(a) + without_nul(b),
        x != 0 ==> without_nul(seq![x]) == seq![x],
        without_nul(seq![0u8]).len() == 0,
        without_nul(Seq::empty()).len() == 0,
    decreases b.len(),
{
    reveal(Seq::filter);
    reveal_with_fuel(Seq::filter, 2);
    assert(seq![x].drop_last() =~= Seq::empty());
    assert(seq![0u8].drop_last() =~= Seq::empty());
    assert(without_nul(Seq::empty()) =~= Seq::empty());
    if x != 0 {
        assert(without_nul(seq![x]) =~= seq![x]);
    }
    if b.len() == 0 {
        assert(a + b =~= a);
        assert(without_nul(a) + without_nul(b) =~= without_nul(a));
    } else {
        law_only_zeros_are_dropped(a, b.drop_last(), x);
        assert((a + b).drop_last() =~= a + b.drop_last());
        assert((a + b).last() == b.last());
        assert(without_nul(a + b) =~= without_nul(a) + without_nul(b));
    }
}

/// The message in UTF-8 without zero bytes, so that a zero byte can end it.
pub fn get_last_error(last: &LastError) -> (r: Vec<u8>)
    ensures
        r@ == without_nul(encode_utf8(last@)),
        forall|i: int| 0 <= i < r@.len() ==> r@[i] != 0,
{
    let bytes: &[u8] = last.message.as_str().as_bytes();
    let mut sanitized: Vec<u8> = Vec::new();
    let mut i: usize = 0;
    proof {
        assert(bytes@.take(0) =~= Seq::empty());
        reveal(Seq::filter);
    }
    while i < bytes.len()
        invariant
            i <= bytes@.len(),
            sanitized@ == without_nul(bytes@.take(i as int)),
            forall|j: int| 0 <= j < sanitized@.len() ==> sanitized@[j] != 0,
        decreases bytes@.len() - i,
    {
        proof {
            reveal(Seq::filter);
            assert(bytes@.take(i + 1).drop_last() =~= bytes@.take(i as int));
            assert(bytes@.take(i + 1).last() == bytes@[i as int]);
        }
        let b: u8 = bytes[i];
        if b != 0 {
            sanitized.push(b);
        }
        i = i + 1;
    }
    assert(bytes@.take(i as int) =~= bytes@);
    sanitized
}

} // verus!
