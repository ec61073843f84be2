use crate::error::Error;
use vstd::prelude::*;

verus! {

/// A value with a byte layout: how it is stored, how a stream that starts
/// with it is read, and the proof that the two agree.
pub trait Record: Sized {
    /// The value meets the invariants of the data model.
    spec fn well_formed(self) -> bool;

    /// The bytes that store the value.
    spec fn encode(self) -> Seq<u8>;

    /// The value at the start of `s` and the bytes that follow it, or why
    /// `s` does not start with one.
    spec fn parse(s: Seq<u8>) -> Result<(Self, Seq<u8>), Error>;

    /// Reading what was stored gives the value back and leaves what followed it.
    proof fn lemma_parse_encode(self, tail: Seq<u8>)
        requires
            self.well_formed(),
        ensures
            Self::parse(self.encode() + tail) == Ok::<(Self, Seq<u8>), Error>((self, tail)),
    ;

    /// Whatever is read from a stream meets the invariants of the data model.
    proof fn lemma_parse_well_formed(s: Seq<u8>)
        ensures
            Self::parse(s) matches Ok(p) ==> p.0.well_formed(),
    ;
}

/// Every item of `items` is well formed.
pub open spec fn all_well_formed<T: Record>(items: Seq<T>) -> bool {
    forall|i: int| 0 <= i < items.len() ==> (#[trigger] items[i]).well_formed()
}

/// The records of `items` stored one after the other.
pub open spec fn encode_all<T: Record>(items: Seq<T>) -> Seq<u8>
    decreases items.len(),
{
    if items.len() == 0 {
        Seq::empty()
    } else {
        items[0].encode() + encode_all(items.skip(1))
    }
}

/// Reads `n` records from the start of `s` and appends them to `acc`; fails
/// with the error of the first record that cannot be read.
pub open spec fn parse_n<T: Record>(s: Seq<u8>, n: nat, acc: Seq<T>) -> Result<
    (Seq<T>, Seq<u8>),
    Error,
>
    decreases n,
{
    if n == 0 {
        Ok((acc, s))
    } else {
        match T::parse(s) {
            Err(e) => Err(e),
            Ok((item, rest)) => parse_n(rest, (n - 1) as nat, acc.push(item)),
        }
    }
}

/// Storing the records from index `i` on starts with record `i`.
pub proof fn lemma_encode_all_step<T: Record>(items: Seq<T>, i: int, done: Seq<u8>)
    requires
        0 <= i < items.len(),
    ensures
        done + encode_all(items.skip(i)) == (done + items[i].encode()) + encode_all(
            items.skip(i + 1),
        ),
{
    assert(items.skip(i).skip(1) =~= items.skip(i + 1));
    assert(done + (items[i].encode() + encode_all(items.skip(i + 1))) =~= (done
        + items[i].encode()) + encode_all(items.skip(i + 1)));
}

/// Reading as many records as were stored gives them back in order and
/// leaves what followed them.
pub proof fn lemma_parse_n_encode_all<T: Record>(items: Seq<T>, tail: Seq<u8>, acc: Seq<T>)
    requires
        all_well_formed(items),
    ensures
        parse_n(encode_all(items) + tail, items.len(), acc) == Ok::<(Seq<T>, Seq<u8>), Error>(
            (acc + items, tail),
        ),
    decreases items.len(),
{
    if items.len() == 0 {
        assert(encode_all(items) + tail =~= tail);
        assert(acc + items =~= acc);
    } else {
        let rest = items.skip(1);
        assert(items[0].well_formed());
        assert forall|i: int| 0 <= i < rest.len() implies (#[trigger] rest[i]).well_formed() by {
            assert(rest[i] == items[i + 1]);
        }
        assert(encode_all(items) + tail =~= items[0].encode() + (encode_all(rest) + tail));
        items[0].lemma_parse_encode(encode_all(rest) + tail);
        lemma_parse_n_encode_all(rest, tail, acc.push(items[0]));
        assert(acc.push(items[0]) + rest =~= acc + items);
    }
}

/// What `parse_n` returns holds the accumulator followed by `n` well-formed records.
pub proof fn lemma_parse_n_well_formed<T: Record>(s: Seq<u8>, n: nat, acc: Seq<T>)
    requires
        all_well_formed(acc),
    ensures
        parse_n(s, n, acc) matches Ok(p) ==> p.0.len() == acc.len() + n && all_well_formed(p.0),
    decreases n,
{
    if n > 0 {
        T::lemma_parse_well_formed(s);
        match T::parse(s) {
            Err(e) => {},
            Ok((item, rest)) => {
                lemma_parse_n_well_formed(rest, (n - 1) as nat, acc.push(item));
            },
        }
    }
}

} // verus!
