use vstd::prelude::*;

verus! {

/// The first TURN channel number.
pub const FIRST_CHANNEL: u16 = 0x4000;

/// The last TURN channel number.
pub const LAST_CHANNEL: u16 = 0x4fff;

/// A channel-data message: channel number and data length, both big-endian,
/// then the data.
pub open spec fn channel_data_frame(channel: u16, data: Seq<u8>) -> Seq<u8> {
    seq![
        (channel / 256) as u8,
        (channel % 256) as u8,
        (data.len() / 256) as u8,
        (data.len() % 256) as u8,
    ] + data
}

/// The 16-bit big-endian number at `i` of `s`.
pub open spec fn be16(s: Seq<u8>, i: int) -> int {
    s[i] * 256 + s[i + 1]
}

/// Whether `packet` is a well-formed channel-data message.
pub open spec fn is_channel_data(packet: Seq<u8>) -> bool {
    &&& packet.len() >= 4
    &&& 64 <= packet[0] <= 79
    &&& be16(packet, 2) <= packet.len() - 4
}

/// Wraps `data` as a channel-data message on `channel`.
pub fn encode(channel: u16, data: &[u8]) -> (r: Vec<u8>)
    requires
        data@.len() <= u16::MAX,
    ensures
        r@ == channel_data_frame(channel, data@),
{
    let len = data.len() as u16;
    let mut out: Vec<u8> = Vec::with_capacity(data.len() + 4);
    out.push((channel / 256) as u8);
    out.push((channel % 256) as u8);
    out.push((len / 256) as u8);
    out.push((len % 256) as u8);
    let mut i: usize = 0;
    while i < data.len()
        invariant
            0 <= i <= data@.len(),
            data@.len() <= u16::MAX,
            len == data@.len(),
            out@ == seq![
                (channel / 256) as u8,
                (channel % 256) as u8,
                (len / 256) as u8,
                (len % 256) as u8,
            ] + data@.subrange(0, i as int),
        decreases data@.len() - i,
    {
        out.push(data[i]);
        i += 1;
        proof {
            assert(data@.subrange(0, i as int) =~= data@.subrange(0, i - 1).push(data@[i - 1]));
        }
    }
    proof {
        assert(data@.subrange(0, data@.len() as int) =~= data@);
    }
    out
}

/// Unwraps a channel-data message into its channel number and data.
pub fn decode(packet: &[u8]) -> (r: Option<(u16, Vec<u8>)>)
    ensures
        r.is_some() == is_channel_data(packet@),
        match r {
            Some((channel, data)) => {
                &&& channel == be16(packet@, 0)
                &&& data@ == packet@.subrange(4, 4 + be16(packet@, 2))
            },
            None => true,
        },
{
    if packet.len() < 4 {
        return None;
    }
    if packet[0] < 64 || packet[0] > 79 {
        return None;
    }
    let channel = (packet[0] as u16) * 256 + packet[1] as u16;
    let len = (packet[2] as usize) * 256 + packet[3] as usize;
    if len > packet.len() - 4 {
        return None;
    }
    let plen = packet.len();
    let mut data: Vec<u8> = Vec::with_capacity(len);
    let mut i: usize = 0;
    while i < len
        invariant
            0 <= i <= len,
            len <= packet@.len() - 4,
            packet@.len() >= 4,
            4 + len <= packet@.len(),
            plen == packet@.len(),
            data@ == packet@.subrange(4, 4 + i),
        decreases len - i,
    {
        data.push(packet[4 + i]);
        i += 1;
        proof {
            assert(packet@.subrange(4, 4 + i) =~= packet@.subrange(4, 4 + i - 1).push(packet@[4 + i - 1]));
        }
    }
    Some((channel, data))
}

/// Decoding what `encode` made gives back the channel and the data.
pub proof fn lemma_decode_encode(channel: u16, data: Seq<u8>)
    requires
        FIRST_CHANNEL <= channel <= LAST_CHANNEL,
        data.len() <= u16::MAX,
    ensures
        is_channel_data(channel_data_frame(channel, data)),
        be16(channel_data_frame(channel, data), 0) == channel,
        channel_data_frame(channel, data).subrange(4, 4 + be16(channel_data_frame(channel, data), 2))
            == data,
{
    let f = channel_data_frame(channel, data);
    assert(f[0] == (channel / 256) as u8);
    assert(f[1] == (channel % 256) as u8);
    assert(f[2] == (data.len() / 256) as u8);
    assert(f[3] == (data.len() % 256) as u8);
    assert(f.subrange(4, 4 + data.len() as int) =~= data);
}

} // verus!
