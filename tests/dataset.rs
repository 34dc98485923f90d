use psylink::calibration::{
    split_at_percentage, CalibController, Datapoint, PsyLinkDataset, SAMPLE_TIMESPAN,
    VALIDATION_SET_PERCENTAGE,
};
use psylink::flow::{CalibrationFlow, CalibrationFlowState};
use psylink::prelude::transpose_vec;
use psylink::protocol::Packet;

fn frame(i: usize) -> Vec<u8> {
    vec![(i % 256) as u8, ((i / 256) % 256) as u8, 7]
}

fn controller_with_packets(n: usize) -> CalibController {
    let mut calib = CalibController::new();
    for i in 0..n {
        calib.add_packet(frame(i));
    }
    calib
}

fn datapoints(n: usize) -> Vec<Datapoint> {
    (0..n).map(|i| Datapoint { packet_index: i, label: (i % 5) as u8 }).collect()
}

fn sorted(mut points: Vec<Datapoint>) -> Vec<(usize, u8)> {
    points.sort_by_key(|d| (d.packet_index, d.label));
    points.iter().map(|d| (d.packet_index, d.label)).collect()
}

#[test]
fn short_history_gives_no_sample() {
    let mut calib = controller_with_packets(SAMPLE_TIMESPAN - 1);
    let index = calib.get_current_index() - 1;
    calib.add_datapoint(Datapoint { packet_index: index, label: 3 });
    assert!(calib.dataset.get(0).is_none());
    assert!(calib.dataset.get_latest().is_none());
}

#[test]
fn full_window_gives_sample() {
    let mut calib = controller_with_packets(SAMPLE_TIMESPAN);
    let index = calib.get_current_index() - 1;
    assert_eq!(index, 249);
    calib.add_datapoint(Datapoint { packet_index: index, label: 3 });
    let sample = calib.dataset.get(0).unwrap();
    assert_eq!(sample.features.len(), SAMPLE_TIMESPAN);
    assert_eq!(sample.label, 3);
    assert_eq!(sample.features[0], frame(0));
    assert_eq!(sample.features[SAMPLE_TIMESPAN - 1], frame(249));
}

#[test]
fn window_ends_at_its_datapoint() {
    let mut calib = controller_with_packets(400);
    calib.add_datapoint(Datapoint { packet_index: 300, label: 1 });
    calib.add_datapoint(Datapoint { packet_index: 400, label: 2 });
    let sample = calib.dataset.get(0).unwrap();
    assert_eq!(sample.features.len(), 250);
    assert_eq!(sample.features[0], frame(51));
    assert_eq!(sample.features[249], frame(300));
    assert!(calib.dataset.get(1).is_none());
    assert!(calib.dataset.get(2).is_none());
    assert!(calib.dataset.get_latest().is_none());
}

#[test]
fn get_latest_uses_last_datapoint() {
    let mut calib = controller_with_packets(260);
    calib.add_datapoint(Datapoint { packet_index: 10, label: 1 });
    calib.add_datapoint(Datapoint { packet_index: 259, label: 4 });
    let sample = calib.dataset.get_latest().unwrap();
    assert_eq!(sample.label, 4);
    assert_eq!(sample.features[249], frame(259));
    assert!(PsyLinkDataset::new().get_latest().is_none());
}

#[test]
fn split_sizes_follow_percentage() {
    let dataset = PsyLinkDataset { datapoints: datapoints(10), all_packets: vec![vec![1, 2], vec![3]] };
    let (train, valid) = dataset.split_train_validate(VALIDATION_SET_PERCENTAGE, 42);
    assert_eq!(valid.len(), 2);
    assert_eq!(train.len(), 8);
    assert_eq!(train.all_packets, dataset.all_packets);
    assert_eq!(valid.all_packets, dataset.all_packets);
    let mut both = valid.datapoints.clone();
    both.extend(train.datapoints.iter().cloned());
    assert_eq!(sorted(both), sorted(dataset.datapoints.clone()));
}

#[test]
fn split_rounds_down() {
    let dataset = PsyLinkDataset { datapoints: datapoints(7), all_packets: vec![] };
    let (train, valid) = dataset.split_train_validate(50, 1);
    assert_eq!(valid.len(), 3);
    assert_eq!(train.len(), 4);
    let (train, valid) = dataset.split_train_validate(0, 1);
    assert_eq!((train.len(), valid.len()), (7, 0));
    let (train, valid) = dataset.split_train_validate(100, 1);
    assert_eq!((train.len(), valid.len()), (0, 7));
    let empty = PsyLinkDataset::new();
    let (train, valid) = empty.split_train_validate(20, 1);
    assert_eq!((train.len(), valid.len()), (0, 0));
}

#[test]
fn split_is_reproducible_with_a_seed() {
    let dataset = PsyLinkDataset { datapoints: datapoints(50), all_packets: vec![] };
    let (train_a, valid_a) = dataset.split_train_validate(20, 7);
    let (train_b, valid_b) = dataset.split_train_validate(20, 7);
    assert_eq!(train_a.datapoints, train_b.datapoints);
    assert_eq!(valid_a.datapoints, valid_b.datapoints);
}

#[test]
fn split_at_percentage_keeps_order() {
    let points = datapoints(10);
    let (train, valid) = split_at_percentage(points.clone(), 30);
    assert_eq!(valid, points[..3].to_vec());
    assert_eq!(train, points[3..].to_vec());
    let (train, valid) = split_at_percentage(points.clone(), 70);
    assert_eq!(valid, points[..7].to_vec());
    assert_eq!(train, points[7..].to_vec());
}

#[test]
fn dump_text_format() {
    let dataset = PsyLinkDataset {
        datapoints: vec![
            Datapoint { packet_index: 0, label: 1 },
            Datapoint { packet_index: 12, label: 0 },
        ],
        all_packets: vec![vec![0, 255], vec![], vec![7]],
    };
    assert_eq!(dataset.to_string(), "([\n(0,1),(12,0),],\n[\n[0,255,],\n[],\n[7,],\n])\n");
    assert_eq!(PsyLinkDataset::new().to_string(), "([\n],\n[\n])\n");
}

#[test]
fn from_arrays_builds_dataset() {
    let points = [(3usize, 1u8), (260, 2)];
    let mut packets = [[0u8; 14]; 3];
    packets[1][13] = 9;
    packets[2][0] = 4;
    let dataset = PsyLinkDataset::from_arrays(&points, &packets);
    assert_eq!(dataset.len(), 2);
    assert_eq!(dataset.datapoints[1], Datapoint { packet_index: 260, label: 2 });
    assert_eq!(dataset.all_packets.len(), 3);
    assert_eq!(dataset.all_packets[1][13], 9);
    assert_eq!(dataset.all_packets[2], packets[2].to_vec());
}

#[test]
fn reset_clears_history() {
    let mut calib = controller_with_packets(5);
    calib.add_datapoint(Datapoint { packet_index: 4, label: 1 });
    assert!(calib.has_datapoints());
    assert_eq!(calib.count_datapoints(), 1);
    calib.reset();
    assert_eq!(calib.get_current_index(), 0);
    assert!(!calib.has_datapoints());
}

#[test]
fn transpose_swaps_rows_and_columns() {
    let matrix = vec![vec![1, 2, 3], vec![4, 5, 6]];
    assert_eq!(transpose_vec(matrix), vec![vec![1, 4], vec![2, 5], vec![3, 6]]);
    assert_eq!(transpose_vec(Vec::<Vec<u8>>::new()), Vec::<Vec<u8>>::new());
    assert_eq!(transpose_vec(vec![Vec::<u8>::new(), Vec::new()]), Vec::<Vec<u8>>::new());
}

#[test]
fn recorded_frames_get_labels() {
    let mut calib = controller_with_packets(2);
    calib.record_packet(vec![vec![1, 2, 3], vec![4, 5, 6]], Some(2));
    assert_eq!(calib.dataset.all_packets[2..].to_vec(), vec![vec![1, 4], vec![2, 5], vec![3, 6]]);
    assert_eq!(
        calib.dataset.datapoints,
        vec![
            Datapoint { packet_index: 2, label: 2 },
            Datapoint { packet_index: 3, label: 2 },
            Datapoint { packet_index: 4, label: 2 },
        ]
    );
    calib.record_packet(vec![vec![7], vec![8]], None);
    assert_eq!(calib.get_current_index(), 6);
    assert_eq!(calib.count_datapoints(), 3);
}

fn packet(tick: u8, is_duplicate: bool) -> Packet {
    Packet {
        channel_count: 2,
        tick,
        min_delay_code: 0,
        max_delay_code: 0,
        sample_count: 1,
        samples: vec![vec![10], vec![20]],
        is_duplicate,
        lost_packets: 0,
    }
}

#[test]
fn ingest_follows_the_flow() {
    let mut calib = CalibController::new();
    let mut flow = CalibrationFlow::default();
    assert!(!calib.ingest_packet(&mut flow, packet(0, false), 100));
    assert_eq!(calib.get_current_index(), 0);

    flow.start(1, 1);
    assert!(calib.ingest_packet(&mut flow, packet(1, false), 100));
    assert_eq!(flow.state, CalibrationFlowState::Welcome);
    assert_eq!(calib.get_current_index(), 1);
    assert_eq!(calib.count_datapoints(), 0);

    assert!(!calib.ingest_packet(&mut flow, packet(1, true), 100_000));
    assert_eq!(calib.get_current_index(), 1);
    assert_eq!(flow.state, CalibrationFlowState::Welcome);

    assert!(calib.ingest_packet(&mut flow, packet(2, false), 3000));
    assert!(calib.ingest_packet(&mut flow, packet(3, false), 2500));
    assert_eq!(flow.state, CalibrationFlowState::NullAction);
    assert_eq!(calib.dataset.datapoints, vec![Datapoint { packet_index: 2, label: 0 }]);
    assert_eq!(calib.dataset.all_packets[2], vec![10, 20]);

    assert!(!calib.ingest_packet(&mut flow, packet(4, false), 1000));
    assert_eq!(calib.dataset.datapoints[1], Datapoint { packet_index: 3, label: 0 });
}

#[test]
fn ingest_while_inferring_records_without_labels() {
    let mut calib = CalibController::new();
    let mut flow = CalibrationFlow::default();
    flow.currently_inferring = true;
    assert!(!calib.ingest_packet(&mut flow, packet(0, false), 100));
    assert_eq!(calib.get_current_index(), 1);
    assert_eq!(calib.count_datapoints(), 0);
    assert_eq!(flow.state, CalibrationFlowState::Init);
}

#[test]
fn split_shuffles_datapoints() {
    let points = datapoints(50);
    let dataset = PsyLinkDataset { datapoints: points.clone(), all_packets: vec![] };
    let (train, valid) = dataset.split_train_validate(20, 7);
    let mut order = valid.datapoints.clone();
    order.extend(train.datapoints.iter().cloned());
    assert_ne!(order, points);
    assert_eq!(sorted(order), sorted(points));
}
