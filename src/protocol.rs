use vstd::prelude::*;

verus! {

/// Offset that centers a raw sample byte at zero: a raw value `v` stands for
/// the physical reading `v + SAMPLE_VALUE_OFFSET`.
pub const SAMPLE_VALUE_OFFSET: i32 = -127;

/// Number of bytes in front of the sample payload that carry the tick and the
/// compressed delay byte.
pub const MIN_HEADER_LEN: usize = 2;

/// How the sample bytes of one packet are ordered on the wire.
#[derive(Clone, Copy, Debug, PartialEq, Eq, Structural)]
pub enum SampleLayout {
    /// One time frame after the other, each frame holding one byte per channel.
    Interleaved,
    /// One channel after the other, each channel holding all of its samples.
    Blocked,
}

/// Why a raw packet could not be decoded.
#[derive(Clone, Copy, Debug, PartialEq, Eq, Structural)]
pub enum DecodeError {
    /// The packet is shorter than its header.
    Truncated,
    /// The sample payload cannot be divided evenly among the channels.
    Misaligned,
}

/// Stateful decoder of raw sensor packets. It remembers the tick of the last
/// packet it decoded, to flag duplicates and count lost packets.
pub struct Decoder {
    last_tick: Option<u8>,
    channel_count: u32,
    header_len: usize,
    layout: SampleLayout,
}

/// One decoded packet.
pub struct Packet {
    pub channel_count: u32,
    /// 8-bit wrapping sequence counter.
    pub tick: u8,
    /// 4-bit code of the minimum delay between two samplings.
    pub min_delay_code: u8,
    /// 4-bit code of the maximum delay between two samplings.
    pub max_delay_code: u8,
    /// Number of samples per channel.
    pub sample_count: usize,
    /// One row per channel, each holding `sample_count` raw bytes.
    pub samples: Vec<Vec<u8>>,
    /// The tick equals the tick of the packet decoded just before.
    pub is_duplicate: bool,
    /// Number of sequence numbers skipped since the packet decoded just before.
    pub lost_packets: u32,
}

/// Number of ticks skipped between the last seen tick and `tick`, counting
/// modulo 256. A tick equal to the last one counts as a full wrap around.
pub open spec fn lost_between(last_tick: Option<u8>, tick: u8) -> nat {
    match last_tick {
        None => 0,
        Some(last) => {
            let delta: int = if tick > last {
                tick - last
            } else {
                tick + 256 - last
            };
            (delta - 1) as nat
        },
    }
}

/// Position in the payload of sample `s` of channel `c`.
pub open spec fn payload_index(
    layout: SampleLayout,
    channel_count: nat,
    sample_count: nat,
    c: int,
    s: int,
) -> int {
    match layout {
        SampleLayout::Interleaved => s * channel_count + c,
        SampleLayout::Blocked => c * sample_count + s,
    }
}

/// Whether a packet of `len` bytes is long enough and has a payload that
/// splits evenly among the channels.
pub open spec fn well_framed(len: nat, header_len: nat, channel_count: nat) -> bool {
    &&& len >= header_len
    &&& channel_count > 0
    &&& (len - header_len) % (channel_count as int) == 0
}

/// The last tick a decoder remembers after it was handed `packet`: the
/// packet's tick when it decodes, the one before otherwise.
pub open spec fn tick_after(last_tick: Option<u8>, packet: Seq<u8>, header_len: nat, channel_count: nat) -> Option<u8> {
    if well_framed(packet.len(), header_len, channel_count) {
        Some(packet[0])
    } else {
        last_tick
    }
}

/// Decoding two packets with the same tick in a row flags the second one as a
/// duplicate. Its lost count is then 255: the same tick reads as a full wrap
/// of the counter.
pub proof fn lemma_same_tick_twice(
    last_tick: Option<u8>,
    first: Seq<u8>,
    second: Seq<u8>,
    header_len: nat,
    channel_count: nat,
)
    requires
        header_len >= MIN_HEADER_LEN,
        well_framed(first.len(), header_len, channel_count),
        well_framed(second.len(), header_len, channel_count),
        first[0] == second[0],
    ensures
        tick_after(last_tick, first, header_len, channel_count) == Some(second[0]),
        lost_between(tick_after(last_tick, first, header_len, channel_count), second[0]) == 255,
{
}

/// Maps a raw sample byte to its physical reading, centered at zero.
pub open spec fn physical(raw: u8) -> int {
    raw + SAMPLE_VALUE_OFFSET
}

/// Splits the compressed delay byte into its two 4-bit codes: the high nibble
/// encodes the minimum sampling delay, the low nibble the maximum one.
pub fn delay_codes(delay_byte: u8) -> (r: (u8, u8))
    ensures
        r.0 == delay_byte / 16,
        r.1 == delay_byte % 16,
{
    let min_code = (delay_byte & 0xf0) >> 4;
    let max_code = delay_byte & 0x0f;
    assert(min_code == delay_byte / 16 && max_code == delay_byte % 16) by (bit_vector)
        requires
            min_code == (delay_byte & 0xf0) >> 4,
            max_code == delay_byte & 0x0f,
    ;
    (min_code, max_code)
}

/// The physical reading of a raw sample byte.
pub fn to_physical(raw: u8) -> (r: i32)
    ensures
        r == physical(raw),
{
    raw as i32 + SAMPLE_VALUE_OFFSET
}

proof fn lemma_index_in_payload(cc: nat, sc: nat, c: int, s: int)
    requires
        0 <= c < cc,
        0 <= s < sc,
    ensures
        0 <= s * cc + c < sc * cc,
        0 <= c * sc + s < sc * cc,
{
    assert(0 <= s * cc + c < sc * cc) by (nonlinear_arith)
        requires
            0 <= c < cc,
            0 <= s < sc,
    ;
    assert(0 <= c * sc + s < sc * cc) by (nonlinear_arith)
        requires
            0 <= c < cc,
            0 <= s < sc,
    ;
}

impl Decoder {
    pub closed spec fn last_tick_spec(&self) -> Option<u8> {
        self.last_tick
    }

    pub closed spec fn channel_count_spec(&self) -> nat {
        self.channel_count as nat
    }

    pub closed spec fn header_len_spec(&self) -> nat {
        self.header_len as nat
    }

    pub closed spec fn layout_spec(&self) -> SampleLayout {
        self.layout
    }

    /// Invariant: the header holds at least the tick and the delay byte.
    pub closed spec fn wf(&self) -> bool {
        self.header_len >= MIN_HEADER_LEN
    }

    /// A decoder for `channel_count` channels whose sample payload starts
    /// right after the tick and delay bytes, one frame after the other.
    pub fn new(channel_count: u32) -> (r: Decoder)
        ensures
            r.wf(),
            r.last_tick_spec() is None,
            r.channel_count_spec() == channel_count,
            r.header_len_spec() == MIN_HEADER_LEN,
            r.layout_spec() == SampleLayout::Interleaved,
    {
        Decoder { last_tick: None, channel_count, header_len: MIN_HEADER_LEN, layout: SampleLayout::Interleaved }
    }

    /// A decoder whose sample payload starts at byte `header_len` and is
    /// ordered as `layout` says.
    pub fn with_layout(channel_count: u32, header_len: usize, layout: SampleLayout) -> (r: Decoder)
        requires
            header_len >= MIN_HEADER_LEN,
        ensures
            r.wf(),
            r.last_tick_spec() is None,
            r.channel_count_spec() == channel_count,
            r.header_len_spec() == header_len,
            r.layout_spec() == layout,
    {
        Decoder { last_tick: None, channel_count, header_len, layout }
    }

    /// The tick of the packet decoded last, if any.
    pub fn last_tick(&self) -> (r: Option<u8>)
        ensures
            r == self.last_tick_spec(),
    {
        self.last_tick
    }

    /// Decodes one raw packet. On success the decoder remembers its tick; on
    /// failure the decoder is left as it was.
    pub fn decode_packet(&mut self, packet: Vec<u8>) -> (r: Result<Packet, DecodeError>)
        requires
            old(self).wf(),
        ensures
            final(self).wf(),
            final(self).channel_count_spec() == old(self).channel_count_spec(),
            final(self).header_len_spec() == old(self).header_len_spec(),
            final(self).layout_spec() == old(self).layout_spec(),
            packet@.len() < old(self).header_len_spec() ==> r == Err::<Packet, DecodeError>(
                DecodeError::Truncated,
            ),
            packet@.len() >= old(self).header_len_spec() && !well_framed(
                packet@.len(),
                old(self).header_len_spec(),
                old(self).channel_count_spec(),
            ) ==> r == Err::<Packet, DecodeError>(DecodeError::Misaligned),
            final(self).last_tick_spec() == tick_after(
                old(self).last_tick_spec(),
                packet@,
                old(self).header_len_spec(),
                old(self).channel_count_spec(),
            ),
            r is Ok <==> well_framed(
                packet@.len(),
                old(self).header_len_spec(),
                old(self).channel_count_spec(),
            ),
            r matches Ok(p) ==> {
                let cc = old(self).channel_count_spec();
                let sc = p.sample_count as nat;
                let header = old(self).header_len_spec();
                &&& p.channel_count == cc
                &&& p.tick == packet@[0]
                &&& p.min_delay_code == packet@[1] / 16
                &&& p.max_delay_code == packet@[1] % 16
                &&& p.is_duplicate == (old(self).last_tick_spec() == Some(packet@[0]))
                &&& p.lost_packets == lost_between(old(self).last_tick_spec(), packet@[0])
                &&& sc * cc == packet@.len() - header
                &&& p.samples@.len() == cc
                &&& forall|c: int|
                    0 <= c < cc ==> #[trigger] p.samples@[c]@.len() == sc
                &&& forall|c: int, s: int|
                    0 <= c < cc && 0 <= s < sc ==> #[trigger] p.samples@[c]@[s] == packet@[header
                        + payload_index(old(self).layout_spec(), cc, sc, c, s)]
            },
    {
        if packet.len() < self.header_len {
            return Err(DecodeError::Truncated);
        }
        let payload_len = packet.len() - self.header_len;
        let cc = self.channel_count as usize;
        if cc == 0 || payload_len % cc != 0 {
            return Err(DecodeError::Misaligned);
        }
        let sample_count = payload_len / cc;
        assert(sample_count * cc == payload_len) by (nonlinear_arith)
            requires
                cc > 0,
                payload_len % cc == 0,
                sample_count == payload_len / cc,
        ;

        let tick = packet[0];
        let (min_delay_code, max_delay_code) = delay_codes(packet[1]);

        let is_duplicate = match self.last_tick {
            Some(last) => tick == last,
            None => false,
        };
        let lost_packets: u32 = match self.last_tick {
            Some(last) => {
                let delta: u32 = if tick > last {
                    (tick - last) as u32
                } else {
                    tick as u32 + 256 - last as u32
                };
                delta - 1
            },
            None => 0,
        };

        let mut samples: Vec<Vec<u8>> = Vec::new();
        let mut c: usize = 0;
        while c < cc
            invariant
                c <= cc,
                cc == self.channel_count,
                sample_count * cc == payload_len,
                payload_len == packet@.len() - self.header_len,
                samples@.len() == c,
                forall|i: int| 0 <= i < c ==> #[trigger] samples@[i]@.len() == sample_count,
                forall|i: int, s: int|
                    0 <= i < c && 0 <= s < sample_count ==> #[trigger] samples@[i]@[s]
                        == packet@[self.header_len + payload_index(
                        self.layout,
                        cc as nat,
                        sample_count as nat,
                        i,
                        s,
                    )],
            decreases cc - c,
        {
            let mut row: Vec<u8> = Vec::new();
            let mut s: usize = 0;
            while s < sample_count
                invariant
                    c < cc,
                    s <= sample_count,
                    sample_count * cc == payload_len,
                    payload_len == packet@.len() - self.header_len,
                    row@.len() == s,
                    forall|j: int|
                        0 <= j < s ==> #[trigger] row@[j] == packet@[self.header_len
                            + payload_index(self.layout, cc as nat, sample_count as nat, c as int, j)],
                decreases sample_count - s,
            {
                proof {
                    lemma_index_in_payload(cc as nat, sample_count as nat, c as int, s as int);
                }
                let index = match self.layout {
                    SampleLayout::Interleaved => s * cc + c,
                    SampleLayout::Blocked => c * sample_count + s,
                };
                assert(index == payload_index(
                    self.layout,
                    cc as nat,
                    sample_count as nat,
                    c as int,
                    s as int,
                ));
                assert(index < payload_len);
                assert(self.header_len + index < packet.len());
                row.push(packet[self.header_len + index]);
                s = s + 1;
            }
            samples.push(row);
            c = c + 1;
        }

        self.last_tick = Some(tick);
        Ok(
            Packet {
                channel_count: self.channel_count,
                tick,
                min_delay_code,
                max_delay_code,
                sample_count,
                samples,
                is_duplicate,
                lost_packets,
            },
        )
    }
}

} // verus!
