use vstd::prelude::*;
use rand::seq::SliceRandom;
use rand::SeedableRng;
use crate::text::{decimal, push_decimal};
use crate::flow::{after_tick, label_of, CalibrationFlow};
use crate::prelude::{is_rectangular, transpose_vec};
use crate::protocol::Packet;

verus! {

/// Number of consecutive packets in one training sample.
pub const SAMPLE_TIMESPAN: usize = 250;

/// Share of the datapoints, in percent, that is held back for validation.
pub const VALIDATION_SET_PERCENTAGE: usize = 20;

/// A labeled position in the packet history of a session.
#[derive(Clone, Copy, Debug, Default, PartialEq, Eq, Structural)]
pub struct Datapoint {
    pub packet_index: usize,
    pub label: u8,
}

/// A window of consecutive packets together with its label.
#[derive(Clone, Debug, Default)]
pub struct TrainingSample {
    pub features: Vec<Vec<u8>>,
    pub label: u8,
}

/// All packets received in a session, and the datapoints recorded while the
/// user was asked to perform a movement.
#[derive(Clone, Debug, Default)]
pub struct PsyLinkDataset {
    pub datapoints: Vec<Datapoint>,
    pub all_packets: Vec<Vec<u8>>,
}

/// The contents of a sequence of byte rows.
pub open spec fn rows_view(rows: Seq<Vec<u8>>) -> Seq<Seq<u8>> {
    rows.map_values(|r: Vec<u8>| r@)
}

/// Whether a full window ending at `packet_index` lies within a history of
/// `history_len` packets.
pub open spec fn window_fits(packet_index: nat, history_len: nat) -> bool {
    packet_index + 1 >= SAMPLE_TIMESPAN && packet_index < history_len
}

/// The window of `SAMPLE_TIMESPAN` packets that ends at `packet_index`.
pub open spec fn window(history: Seq<Seq<u8>>, packet_index: nat) -> Seq<Seq<u8>> {
    history.subrange(packet_index + 1 - SAMPLE_TIMESPAN, packet_index + 1 as int)
}

/// The sample that a datapoint stands for, if its window fits in the history.
pub open spec fn sample_of(history: Seq<Seq<u8>>, d: Datapoint) -> Option<(Seq<Seq<u8>>, u8)> {
    if window_fits(d.packet_index as nat, history.len()) {
        Some((window(history, d.packet_index as nat), d.label))
    } else {
        None
    }
}

/// Number of datapoints held back for validation out of `len`.
pub open spec fn validation_len(len: nat, percentage: nat) -> nat {
    len * percentage / 100
}

/// Text of a list of datapoints in the dump format: `(index,label),` each.
pub open spec fn datapoints_text(ds: Seq<Datapoint>) -> Seq<char>
    decreases ds.len(),
{
    if ds.len() == 0 {
        Seq::empty()
    } else {
        let d = ds.last();
        datapoints_text(ds.drop_last()) + "("@ + decimal(d.packet_index as nat) + ","@ + decimal(
            d.label as nat,
        ) + "),"@
    }
}

/// Text of one packet in the dump format: each byte followed by a comma.
pub open spec fn bytes_text(bytes: Seq<u8>) -> Seq<char>
    decreases bytes.len(),
{
    if bytes.len() == 0 {
        Seq::empty()
    } else {
        bytes_text(bytes.drop_last()) + decimal(bytes.last() as nat) + ","@
    }
}

/// Text of the packet history in the dump format: one bracketed packet per line.
pub open spec fn packets_text(rows: Seq<Seq<u8>>) -> Seq<char>
    decreases rows.len(),
{
    if rows.len() == 0 {
        Seq::empty()
    } else {
        packets_text(rows.drop_last()) + "["@ + bytes_text(rows.last()) + "],\n"@
    }
}

/// The whole dump of a dataset: the datapoints, then the packet history.
pub open spec fn dump_text(ds: Seq<Datapoint>, rows: Seq<Seq<u8>>) -> Seq<char> {
    "([\n"@ + datapoints_text(ds) + "],\n[\n"@ + packets_text(rows) + "])\n"@
}

/// Number of time frames in a packet's channel rows.
pub open spec fn frame_count(samples: Seq<Vec<u8>>) -> nat {
    if samples.len() == 0 {
        0
    } else {
        samples[0]@.len()
    }
}

/// The time frames of a packet: frame `j` holds sample `j` of every channel.
pub open spec fn frames_of(samples: Seq<Vec<u8>>) -> Seq<Seq<u8>> {
    Seq::new(frame_count(samples), |j: int| Seq::new(samples.len(), |i: int| samples[i]@[j]))
}

/// The datapoints of `count` frames written from position `start` on, all
/// with `label`; none without a label.
pub open spec fn labeled_frames(start: nat, count: nat, label: Option<u8>) -> Seq<Datapoint> {
    match label {
        None => Seq::empty(),
        Some(l) => Seq::new(count, |j: int| Datapoint { packet_index: (start + j) as usize, label: l }),
    }
}

/// A datapoint that refers to the packet just written, the `k`-th of the
/// history, has a training sample exactly when at least `SAMPLE_TIMESPAN`
/// packets have been written. The sample then holds `SAMPLE_TIMESPAN`
/// packets, the last of them the newest, and the datapoint's label.
pub proof fn lemma_sample_needs_full_window(history: Seq<Seq<u8>>, label: u8)
    requires
        1 <= history.len() <= usize::MAX,
    ensures
        ({
            let d = Datapoint { packet_index: (history.len() - 1) as usize, label };
            &&& (sample_of(history, d) is None) <==> history.len() < SAMPLE_TIMESPAN
            &&& sample_of(history, d) matches Some(s) ==> {
                &&& s.0.len() == SAMPLE_TIMESPAN
                &&& s.0.last() == history.last()
                &&& s.1 == label
            }
        }),
{
}

/// Relies on rand's `StdRng::seed_from_u64` and `SliceRandom::shuffle`: the
/// shuffle only swaps elements, so it leaves a permutation of its input.
#[verifier::external_body]
fn shuffle_seeded(items: &mut Vec<Datapoint>, seed: u64)
    ensures
        final(items)@.to_multiset() == old(items)@.to_multiset(),
{
    let mut rng = rand::rngs::StdRng::seed_from_u64(seed);
    items.shuffle(&mut rng);
}

/// A copy of a byte row.
fn copy_row(row: &Vec<u8>) -> (r: Vec<u8>)
    ensures
        r@ == row@,
{
    let mut out: Vec<u8> = Vec::new();
    let mut i: usize = 0;
    while i < row.len()
        invariant
            i <= row@.len(),
            out@ == row@.subrange(0, i as int),
        decreases row@.len() - i,
    {
        out.push(row[i]);
        i = i + 1;
        assert(out@ =~= row@.subrange(0, i as int));
    }
    assert(out@ =~= row@);
    out
}

/// A copy of the rows `start..end` of `rows`.
fn copy_rows(rows: &Vec<Vec<u8>>, start: usize, end: usize) -> (r: Vec<Vec<u8>>)
    requires
        start <= end <= rows@.len(),
    ensures
        rows_view(r@) == rows_view(rows@).subrange(start as int, end as int),
{
    let mut out: Vec<Vec<u8>> = Vec::new();
    let mut i: usize = start;
    while i < end
        invariant
            start <= i <= end,
            end <= rows@.len(),
            out@.len() == i - start,
            rows_view(out@) == rows_view(rows@).subrange(start as int, i as int),
        decreases end - i,
    {
        let row = copy_row(&rows[i]);
        let ghost before = out@;
        out.push(row);
        proof {
            assert(out@ == before.push(row));
            assert forall|m: int| 0 <= m < out@.len() implies #[trigger] rows_view(out@)[m] == rows_view(
                rows@,
            ).subrange(start as int, i + 1)[m] by {
                if m < before.len() {
                    assert(rows_view(before)[m] == rows_view(rows@).subrange(start as int, i as int)[m]);
                    assert(rows_view(before)[m] == before[m]@);
                    assert(out@[m] == before[m]);
                } else {
                    assert(out@[m] == row);
                    assert(m + start == i);
                }
            }
        }
        i = i + 1;
        assert(rows_view(out@) =~= rows_view(rows@).subrange(start as int, i as int));
    }
    out
}

/// `floor(len * percentage / 100)`.
fn validation_count(len: usize, percentage: usize) -> (r: usize)
    requires
        percentage <= 100,
    ensures
        r == validation_len(len as nat, percentage as nat),
        r <= len,
{
    assert(len as u128 * percentage as u128 <= u64::MAX as u128 * 100) by (nonlinear_arith)
        requires
            len <= u64::MAX,
            percentage <= 100,
    ;
    let product: u128 = len as u128 * percentage as u128;
    let k: u128 = product / 100;
    assert(k <= len) by (nonlinear_arith)
        requires
            product == len * percentage,
            k == product / 100,
            percentage <= 100,
    ;
    k as usize
}

proof fn lemma_validation_len_bound(len: nat, percentage: nat)
    requires
        percentage <= 100,
    ensures
        validation_len(len, percentage) <= len,
{
    assert(len * percentage / 100 <= len) by (nonlinear_arith)
        requires
            percentage <= 100,
    ;
}

/// Splits datapoints that are already in random order: the first
/// `floor(len * validation_percentage / 100)` go to validation, the rest to
/// training. Returns `(training, validation)`.
pub fn split_at_percentage(shuffled: Vec<Datapoint>, validation_percentage: usize) -> (r: (
    Vec<Datapoint>,
    Vec<Datapoint>,
))
    requires
        validation_percentage <= 100,
    ensures
        r.1@ == shuffled@.subrange(
            0,
            validation_len(shuffled@.len(), validation_percentage as nat) as int,
        ),
        r.0@ == shuffled@.subrange(
            validation_len(shuffled@.len(), validation_percentage as nat) as int,
            shuffled@.len() as int,
        ),
{
    let k = validation_count(shuffled.len(), validation_percentage);
    let mut validation = shuffled;
    let training = validation.split_off(k);
    (training, validation)
}

impl TrainingSample {
    pub open spec fn features_view(&self) -> Seq<Seq<u8>> {
        rows_view(self.features@)
    }
}

impl PsyLinkDataset {
    pub open spec fn history(&self) -> Seq<Seq<u8>> {
        rows_view(self.all_packets@)
    }

    /// An empty dataset.
    pub fn new() -> (r: Self)
        ensures
            r.datapoints@.len() == 0,
            r.all_packets@.len() == 0,
    {
        PsyLinkDataset { datapoints: Vec::new(), all_packets: Vec::new() }
    }

    /// Number of datapoints.
    pub fn len(&self) -> (r: usize)
        ensures
            r == self.datapoints@.len(),
    {
        self.datapoints.len()
    }

    /// The training sample of datapoint `index`: the `SAMPLE_TIMESPAN`
    /// packets that end at its packet index, with its label. None when there
    /// is no such datapoint or when the window reaches before the first packet
    /// or past the last one.
    pub fn get(&self, index: usize) -> (r: Option<TrainingSample>)
        ensures
            index >= self.datapoints@.len() ==> r is None,
            index < self.datapoints@.len() ==> match sample_of(
                self.history(),
                self.datapoints@[index as int],
            ) {
                None => r is None,
                Some(s) => r matches Some(t) && t.features_view() == s.0 && t.label == s.1,
            },
    {
        if index >= self.datapoints.len() {
            return None;
        }
        let datapoint = self.datapoints[index];
        if datapoint.packet_index < SAMPLE_TIMESPAN - 1
            || datapoint.packet_index >= self.all_packets.len() {
            return None;
        }
        let start = datapoint.packet_index + 1 - SAMPLE_TIMESPAN;
        let end = datapoint.packet_index + 1;
        let features = copy_rows(&self.all_packets, start, end);
        Some(TrainingSample { features, label: datapoint.label })
    }

    /// The training sample of the datapoint recorded last.
    pub fn get_latest(&self) -> (r: Option<TrainingSample>)
        ensures
            self.datapoints@.len() == 0 ==> r is None,
            self.datapoints@.len() > 0 ==> match sample_of(
                self.history(),
                self.datapoints@.last(),
            ) {
                None => r is None,
                Some(s) => r matches Some(t) && t.features_view() == s.0 && t.label == s.1,
            },
    {
        let len = self.len();
        if len == 0 {
            return None;
        }
        self.get(len - 1)
    }

    /// A dataset with the given datapoints over the same packet history.
    fn with_datapoints(&self, datapoints: Vec<Datapoint>) -> (r: Self)
        ensures
            r.datapoints@ == datapoints@,
            r.history() == self.history(),
    {
        let all_packets = copy_rows(&self.all_packets, 0, self.all_packets.len());
        assert(self.history().subrange(0, self.all_packets@.len() as int) =~= self.history());
        PsyLinkDataset { datapoints, all_packets }
    }

    /// Shuffles the datapoints with a generator seeded by `seed` and splits
    /// them: `floor(len * validation_percentage / 100)` go to the validation
    /// set, the rest to the training set. Both keep the whole packet history.
    /// Returns `(training, validation)`.
    pub fn split_train_validate(&self, validation_percentage: usize, seed: u64) -> (r: (Self, Self))
        requires
            validation_percentage <= 100,
        ensures
            r.0.history() == self.history(),
            r.1.history() == self.history(),
            r.1.datapoints@.len() == validation_len(
                self.datapoints@.len(),
                validation_percentage as nat,
            ),
            (r.1.datapoints@ + r.0.datapoints@).to_multiset() == self.datapoints@.to_multiset(),
    {
        let mut shuffled = self.datapoints.clone();
        assert(shuffled@ =~= self.datapoints@);
        shuffle_seeded(&mut shuffled, seed);
        proof {
            shuffled@.to_multiset_ensures();
            self.datapoints@.to_multiset_ensures();
        }
        let ghost order = shuffled@;
        assert(order.len() == self.datapoints@.len());
        let (training, validation) = split_at_percentage(shuffled, validation_percentage);
        proof {
            lemma_validation_len_bound(order.len(), validation_percentage as nat);
        }
        assert(validation@ + training@ =~= order);
        (self.with_datapoints(training), self.with_datapoints(validation))
    }

    /// The dump of the dataset as text: the `(packet index, label)` pairs of
    /// the datapoints, then every packet of the history as a list of bytes.
    pub fn to_string(&self) -> (r: String)
        ensures
            r@ == dump_text(self.datapoints@, self.history()),
    {
        let mut s = String::from_str("([\n");
        let ghost prefix = s@;
        let mut i: usize = 0;
        while i < self.datapoints.len()
            invariant
                i <= self.datapoints@.len(),
                s@ == prefix + datapoints_text(self.datapoints@.subrange(0, i as int)),
            decreases self.datapoints@.len() - i,
        {
            let d = self.datapoints[i];
            s.append("(");
            push_decimal(&mut s, d.packet_index as u64);
            s.append(",");
            push_decimal(&mut s, d.label as u64);
            s.append("),");
            proof {
                let sub = self.datapoints@.subrange(0, i + 1);
                assert(sub.drop_last() =~= self.datapoints@.subrange(0, i as int));
                assert(sub.last() == d);
            }
            i = i + 1;
        }
        assert(self.datapoints@.subrange(0, i as int) =~= self.datapoints@);
        s.append("],\n[\n");
        let ghost middle = s@;
        let mut k: usize = 0;
        while k < self.all_packets.len()
            invariant
                k <= self.all_packets@.len(),
                s@ == middle + packets_text(self.history().subrange(0, k as int)),
            decreases self.all_packets@.len() - k,
        {
            let row = &self.all_packets[k];
            s.append("[");
            let ghost row_start = s@;
            let mut j: usize = 0;
            while j < row.len()
                invariant
                    j <= row@.len(),
                    s@ == row_start + bytes_text(row@.subrange(0, j as int)),
                decreases row@.len() - j,
            {
                push_decimal(&mut s, row[j] as u64);
                s.append(",");
                proof {
                    let sub = row@.subrange(0, j + 1);
                    assert(sub.drop_last() =~= row@.subrange(0, j as int));
                }
                j = j + 1;
            }
            assert(row@.subrange(0, j as int) =~= row@);
            s.append("],\n");
            proof {
                let sub = self.history().subrange(0, k + 1);
                assert(sub.drop_last() =~= self.history().subrange(0, k as int));
                assert(sub.last() == row@);
            }
            k = k + 1;
        }
        assert(self.history().subrange(0, k as int) =~= self.history());
        s.append("])\n");
        s
    }

    /// A dataset built from `(packet index, label)` pairs and a packet history
    /// of fixed-width packets.
    pub fn from_arrays(datapoints: &[(usize, u8)], all_packets: &[[u8; 14]]) -> (r: Self)
        ensures
            r.datapoints@.len() == datapoints@.len(),
            forall|i: int|
                0 <= i < datapoints@.len() ==> #[trigger] r.datapoints@[i] == (Datapoint {
                    packet_index: datapoints@[i].0,
                    label: datapoints@[i].1,
                }),
            r.history().len() == all_packets@.len(),
            forall|i: int|
                0 <= i < all_packets@.len() ==> #[trigger] r.history()[i] == all_packets@[i]@,
    {
        let mut points: Vec<Datapoint> = Vec::new();
        let mut i: usize = 0;
        while i < datapoints.len()
            invariant
                i <= datapoints@.len(),
                points@.len() == i,
                forall|k: int|
                    0 <= k < i ==> #[trigger] points@[k] == (Datapoint {
                        packet_index: datapoints@[k].0,
                        label: datapoints@[k].1,
                    }),
            decreases datapoints@.len() - i,
        {
            let (packet_index, label) = datapoints[i];
            points.push(Datapoint { packet_index, label });
            i = i + 1;
        }
        let mut rows: Vec<Vec<u8>> = Vec::new();
        let mut k: usize = 0;
        while k < all_packets.len()
            invariant
                k <= all_packets@.len(),
                rows@.len() == k,
                forall|m: int| 0 <= m < k ==> #[trigger] rows@[m]@ == all_packets@[m]@,
            decreases all_packets@.len() - k,
        {
            let packet = &all_packets[k];
            let mut row: Vec<u8> = Vec::new();
            let mut j: usize = 0;
            while j < 14
                invariant
                    j <= 14,
                    packet@.len() == 14,
                    row@ == packet@.subrange(0, j as int),
                decreases 14 - j,
            {
                row.push(packet[j]);
                j = j + 1;
                assert(row@ =~= packet@.subrange(0, j as int));
            }
            assert(row@ =~= packet@);
            rows.push(row);
            k = k + 1;
        }
        PsyLinkDataset { datapoints: points, all_packets: rows }
    }
}

/// The dataset of a calibration session, filled one packet at a time.
#[derive(Clone, Debug, Default)]
pub struct CalibController {
    pub dataset: PsyLinkDataset,
}

impl CalibController {
    pub open spec fn history(&self) -> Seq<Seq<u8>> {
        self.dataset.history()
    }

    pub open spec fn datapoints(&self) -> Seq<Datapoint> {
        self.dataset.datapoints@
    }

    /// A controller with an empty dataset.
    pub fn new() -> (r: Self)
        ensures
            r.history().len() == 0,
            r.datapoints().len() == 0,
    {
        CalibController { dataset: PsyLinkDataset::new() }
    }

    /// Appends one time frame to the packet history.
    pub fn add_packet(&mut self, sample: Vec<u8>)
        ensures
            final(self).history() == old(self).history().push(sample@),
            final(self).datapoints() == old(self).datapoints(),
    {
        let ghost before = self.dataset.all_packets@;
        self.dataset.all_packets.push(sample);
        assert(rows_view(self.dataset.all_packets@) =~= rows_view(before).push(sample@));
    }

    /// Appends one datapoint.
    pub fn add_datapoint(&mut self, datapoint: Datapoint)
        ensures
            final(self).datapoints() == old(self).datapoints().push(datapoint),
            final(self).history() == old(self).history(),
    {
        self.dataset.datapoints.push(datapoint);
    }

    /// Forgets all packets and datapoints.
    pub fn reset(&mut self)
        ensures
            final(self).history().len() == 0,
            final(self).datapoints().len() == 0,
    {
        self.dataset.datapoints.clear();
        self.dataset.all_packets.clear();
    }

    /// Number of time frames recorded so far; the frame written last stands
    /// at one less.
    pub fn get_current_index(&self) -> (r: usize)
        ensures
            r == self.history().len(),
    {
        self.dataset.all_packets.len()
    }

    /// Whether any datapoint has been recorded.
    pub fn has_datapoints(&self) -> (r: bool)
        ensures
            r == (self.datapoints().len() > 0),
    {
        self.dataset.datapoints.len() > 0
    }

    /// Number of datapoints recorded.
    pub fn count_datapoints(&self) -> (r: usize)
        ensures
            r == self.datapoints().len(),
    {
        self.dataset.datapoints.len()
    }

    /// Appends the time frames of a packet's channel rows to the history.
    /// With a label, each frame also gets a datapoint that refers to it.
    pub fn record_packet(&mut self, samples: Vec<Vec<u8>>, label: Option<u8>)
        requires
            is_rectangular(samples@),
        ensures
            final(self).history() == old(self).history() + frames_of(samples@),
            final(self).datapoints() == old(self).datapoints() + labeled_frames(
                old(self).history().len(),
                frame_count(samples@),
                label,
            ),
    {
        let ghost rows = samples@;
        let frames = transpose_vec(samples);
        assert(frames@.len() == frame_count(rows));
        let ghost start = self.history().len();
        let mut j: usize = 0;
        while j < frames.len()
            invariant
                j <= frames@.len(),
                frames@.len() == frame_count(rows),
                forall|k: int| 0 <= k < frames@.len() ==> #[trigger] frames@[k]@.len() == rows.len(),
                forall|i: int, k: int|
                    0 <= i < rows.len() && 0 <= k < frames@.len() ==> #[trigger] frames@[k]@[i]
                        == rows[i]@[k],
                start == old(self).history().len(),
                self.history() == old(self).history() + frames_of(rows).subrange(0, j as int),
                self.datapoints() == old(self).datapoints() + labeled_frames(start, j as nat, label),
            decreases frames@.len() - j,
        {
            let frame = copy_row(&frames[j]);
            assert(frame@ =~= frames_of(rows)[j as int]);
            let ghost history_before = self.history();
            self.add_packet(frame);
            assert(self.history() =~= old(self).history() + frames_of(rows).subrange(0, j + 1));
            if let Some(l) = label {
                let index = self.dataset.all_packets.len() - 1;
                self.add_datapoint(Datapoint { packet_index: index, label: l });
                assert(self.datapoints() =~= old(self).datapoints() + labeled_frames(
                    start,
                    (j + 1) as nat,
                    label,
                ));
            } else {
                assert(labeled_frames(start, (j + 1) as nat, label) =~= Seq::<Datapoint>::empty());
            }
            j = j + 1;
        }
        assert(frames_of(rows).subrange(0, j as int) =~= frames_of(rows));
    }

    /// Handles one decoded packet of a session. Duplicates are dropped, and
    /// so is every packet while neither calibration nor inference runs.
    /// Otherwise a running calibration first lets `elapsed_ms` pass, then the
    /// packet's frames are recorded under the label of the flow's new state.
    /// Returns whether the flow changed state.
    pub fn ingest_packet(&mut self, flow: &mut CalibrationFlow, packet: Packet, elapsed_ms: u64) -> (r: bool)
        requires
            old(flow).wf(),
            is_rectangular(packet.samples@),
        ensures
            final(flow).wf(),
            final(flow).currently_calibrating == old(flow).currently_calibrating,
            final(flow).currently_inferring == old(flow).currently_inferring,
            ({
                let live = !packet.is_duplicate && (old(flow).currently_calibrating
                    || old(flow).currently_inferring);
                let ticks = live && old(flow).currently_calibrating;
                &&& ticks ==> (final(flow).model(), final(flow).timer) == after_tick(
                    old(flow).model(),
                    old(flow).timer,
                    elapsed_ms,
                ) && r == (final(flow).state != old(flow).state)
                &&& !ticks ==> final(flow).model() == old(flow).model() && final(flow).timer
                    == old(flow).timer && !r
                &&& !live ==> final(self).history() == old(self).history()
                    && final(self).datapoints() == old(self).datapoints()
                &&& live ==> final(self).history() == old(self).history() + frames_of(
                    packet.samples@,
                )
                &&& live ==> final(self).datapoints() == old(self).datapoints() + labeled_frames(
                    old(self).history().len(),
                    frame_count(packet.samples@),
                    label_of(final(flow).currently_calibrating, final(flow).model()),
                )
            }),
    {
        if packet.is_duplicate || !(flow.currently_calibrating || flow.currently_inferring) {
            return false;
        }
        let mut changed = false;
        if flow.currently_calibrating {
            changed = flow.tick(elapsed_ms);
        }
        let label = flow.get_label();
        self.record_packet(packet.samples, label);
        changed
    }
}

} // verus!
