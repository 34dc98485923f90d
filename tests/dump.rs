use psylink::calibration::{Datapoint, PsyLinkDataset};
use psylink::dump::{from_dump, parse_number};

fn sample_dataset() -> PsyLinkDataset {
    PsyLinkDataset {
        datapoints: vec![
            Datapoint { packet_index: 0, label: 1 },
            Datapoint { packet_index: 12, label: 0 },
            Datapoint { packet_index: usize::MAX, label: 255 },
        ],
        all_packets: vec![vec![0, 255], vec![], vec![7, 10, 100]],
    }
}

#[test]
fn dump_loads_back() {
    let dataset = sample_dataset();
    let text = dataset.to_string();
    let loaded = from_dump(text.as_bytes()).unwrap();
    assert_eq!(loaded.datapoints, dataset.datapoints);
    assert_eq!(loaded.all_packets, dataset.all_packets);
}

#[test]
fn empty_dump_loads_back() {
    let loaded = from_dump(b"([\n],\n[\n])\n").unwrap();
    assert!(loaded.datapoints.is_empty());
    assert!(loaded.all_packets.is_empty());
}

#[test]
fn reloaded_dataset_gives_same_samples() {
    let mut dataset = PsyLinkDataset::new();
    for i in 0..300usize {
        dataset.all_packets.push(vec![(i % 256) as u8, 3, 200]);
    }
    dataset.datapoints.push(Datapoint { packet_index: 100, label: 1 });
    dataset.datapoints.push(Datapoint { packet_index: 249, label: 2 });
    dataset.datapoints.push(Datapoint { packet_index: 299, label: 0 });
    let loaded = from_dump(dataset.to_string().as_bytes()).unwrap();
    for i in 0..4 {
        let a = dataset.get(i);
        let b = loaded.get(i);
        assert_eq!(a.is_some(), b.is_some());
        if let (Some(a), Some(b)) = (a, b) {
            assert_eq!(a.features, b.features);
            assert_eq!(a.label, b.label);
        }
    }
}

#[test]
fn malformed_dumps_are_rejected() {
    assert!(from_dump(b"").is_none());
    assert!(from_dump(b"([\n],\n[\n])").is_none());
    assert!(from_dump(b"([\n],\n[\n])\nextra").is_none());
    assert!(from_dump(b"([\n(1,256),],\n[\n])\n").is_none());
    assert!(from_dump(b"([\n],\n[\n[1,2],\n])\n").is_none());
    assert!(from_dump(b"([\n],\n[\n[300,],\n])\n").is_none());
}

#[test]
fn numbers_stop_at_non_digits() {
    assert_eq!(parse_number(b"123,", 0, 1000), Some((123, 3)));
    assert_eq!(parse_number(b"x45", 1, 1000), Some((45, 3)));
    assert_eq!(parse_number(b"1001", 0, 1000), None);
    assert_eq!(parse_number(b",", 0, 1000), None);
    assert_eq!(parse_number(b"18446744073709551615]", 0, u64::MAX), Some((u64::MAX, 20)));
    assert_eq!(parse_number(b"18446744073709551616]", 0, u64::MAX), None);
}

#[test]
fn leading_zeros_are_rejected() {
    assert_eq!(parse_number(b"0,", 0, 10), Some((0, 1)));
    assert_eq!(parse_number(b"012,", 0, 100), None);
    assert_eq!(parse_number(b"00", 0, 100), None);
    assert!(from_dump(b"([\n(01,1),],\n[\n])\n").is_none());
    assert!(from_dump(b"([\n(1,1),],\n[\n[007,],\n])\n").is_none());
    let loaded = from_dump(b"([\n(1,1),],\n[\n[0,10,],\n])\n").unwrap();
    assert_eq!(loaded.all_packets, vec![vec![0, 10]]);
    assert_eq!(loaded.datapoints, vec![Datapoint { packet_index: 1, label: 1 }]);
}
