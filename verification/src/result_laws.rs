//! What contracts call the result of a function is that result: the
//! bytes it holds where it holds any, and the error where it is one.

use vstd::prelude::*;
use crate::annexb;
use crate::annexb::NalRef;
use crate::bytes;
use crate::feed;
use crate::feed::Carried;
use crate::obu;
use crate::obu::{ObuRef, TemporalUnit};
use crate::sei;
use crate::sei::SeiMessage;
use crate::Error;

verus! {

/// An error is that error, in every result.
pub proof fn errors_are_themselves(e: Error)
    ensures
        annexb::bytes_result(Err(e)) == Err::<Seq<u8>, Error>(e),
        annexb::slices_result(Err(e)) == Err::<Seq<Seq<u8>>, Error>(e),
        sei::messages_result(Err(e)) == Err::<Seq<sei::Message>, Error>(e),
        sei::payloads_result(Err(e)) == Err::<Seq<Seq<u8>>, Error>(e),
        obu::obus_result(Err(e)) == Err::<Seq<obu::Obu>, Error>(e),
        obu::units_result(Err(e)) == Err::<Seq<obu::TuPlace>, Error>(e),
        feed::carried_result(Err(e)) == Err::<Seq<feed::Carrier>, Error>(e),
{
}

/// Bytes and lists of bytes are what they hold.
pub proof fn bytes_are_themselves(
    v: Vec<u8>,
    slices: Vec<&[u8]>,
    list: Vec<Vec<u8>>,
    i: int,
)
    ensures
        annexb::bytes_result(Ok(v)) == Ok::<Seq<u8>, Error>(v@),
        annexb::slices_result(Ok(slices)) == Ok::<Seq<Seq<u8>>, Error>(
            bytes::slice_contents(slices@),
        ),
        sei::payloads_result(Ok(list)) == Ok::<Seq<Seq<u8>>, Error>(bytes::contents(list@)),
        bytes::slice_contents(slices@).len() == slices@.len(),
        0 <= i < slices@.len() ==> bytes::slice_contents(slices@)[i] == slices@[i]@,
        bytes::contents(list@).len() == list@.len(),
        0 <= i < list@.len() ==> bytes::contents(list@)[i] == list@[i]@,
{
}

/// Lists of what was found are what was found.
pub proof fn lists_are_themselves(
    messages: Vec<SeiMessage>,
    obus: Vec<ObuRef<'_>>,
    units: Vec<TemporalUnit>,
    carried: Vec<Carried>,
)
    ensures
        sei::messages_result(Ok(messages)) == Ok::<Seq<sei::Message>, Error>(
            sei::said(messages@),
        ),
        obu::obus_result(Ok(obus)) == Ok::<Seq<obu::Obu>, Error>(obu::obu_places(obus@)),
        obu::units_result(Ok(units)) == Ok::<Seq<obu::TuPlace>, Error>(obu::tu_places(units@)),
        feed::carried_result(Ok(carried)) == Ok::<Seq<feed::Carrier>, Error>(
            feed::carried_views(carried@),
        ),
{
}

/// A NAL unit's place is the numbers and bytes it is given in.
pub proof fn nal_units_are_given_in_their_fields(list: Seq<NalRef<'_>>, i: int)
    requires
        0 <= i < list.len(),
    ensures
        annexb::places(list).len() == list.len(),
        annexb::places(list)[i].pad == list[i].pad,
        annexb::places(list)[i].code == list[i].code,
        annexb::places(list)[i].start == list[i].start,
        annexb::places(list)[i].end == list[i].end,
        annexb::places(list)[i].bytes == list[i].bytes@,
{
}

} // verus!
