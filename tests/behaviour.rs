use raid_2::data::Data;
use raid_2::disk::{Disk, DiskType};
use raid_2::hamming::{add_bits, calculate_parity_bits, get_power_of_two, parity_bits_count};
use raid_2::raid::Raid;
use raid_2::RaidError;

#[test]
fn read_back_after_several_writes() {
    let mut data = Data::new(3, 5);
    let writes: Vec<Vec<bool>> = vec![
        vec![true, false],
        vec![false, false, true, true, false],
        vec![],
        vec![true, true, false, true],
    ];
    let mut all = Vec::new();
    for w in &writes {
        data.write_sequence(w.as_slice()).unwrap();
        all.extend_from_slice(w);
    }
    assert_eq!(data.last_index(), 11);
    assert_eq!(data.get_slice(0, data.last_index()).unwrap(), all);
}

#[test]
fn striping_places_bits_by_position() {
    let mut data = Data::new(3, 4);
    let bits = vec![true, false, false, true, true, false, true, true];
    data.write_sequence(bits.as_slice()).unwrap();
    for (i, b) in bits.iter().enumerate() {
        assert_eq!(data.disk(i % 3).get(i / 3).unwrap(), *b);
    }
    assert_eq!(data.disk(0).len(), 3);
    assert_eq!(data.disk(1).len(), 3);
    assert_eq!(data.disk(2).len(), 2);
}

#[test]
fn exact_fit_is_refused() {
    let mut data = Data::new(4, 2);
    assert_eq!(data.total_capacity(), 8);
    assert_eq!(data.write_sequence(&[true; 8]), Err(RaidError::CapacityExceeded));
    assert_eq!(data.last_index(), 0);
    assert_eq!(data.write_sequence(&[true; 7]), Ok(()));
    assert_eq!(data.last_index(), 7);
}

#[test]
fn refused_write_changes_nothing() {
    let mut data = Data::new(2, 3);
    data.write_sequence(&[true, false, true]).unwrap();
    let err = data.write_sequence(&[false, false, false]).unwrap_err();
    assert_eq!(err, RaidError::CapacityExceeded);
    assert_eq!(err.message(), "Not enough space");
    assert_eq!(data.last_index(), 3);
    assert_eq!(data.get_slice(0, 3).unwrap(), vec![true, false, true]);
    assert_eq!(data.disk(0).len(), 2);
    assert_eq!(data.disk(1).len(), 1);
}

#[test]
fn reads_past_the_end_fail() {
    let mut data = Data::new(4, 16);
    data.write_sequence(&[true, true, false]).unwrap();
    assert_eq!(data.get_bit(2), Ok(false));
    assert_eq!(data.get_bit(3), Err(RaidError::OutOfRange));
    assert_eq!(data.get_bit(4), Err(RaidError::OutOfRange));
    assert_eq!(data.get_slice(0, 4), Err(RaidError::OutOfRange));
    assert_eq!(data.get_slice(3, 3), Ok(vec![]));
    assert_eq!(data.get_slice(2, 1), Err(RaidError::OutOfRange));
    assert_eq!(data.get_slice(6, 5), Err(RaidError::OutOfRange));
}

#[test]
fn new_array_has_empty_disks_of_the_given_size() {
    let data = Data::new(3, 7);
    for i in 0..3 {
        assert_eq!(data.disk(i).len(), 0);
        assert_eq!(data.disk(i).capacity(), 7);
    }
    assert_eq!(data.last_layer(), 0);
    let raid = Raid::new(data);
    for k in 0..raid.parity_count() {
        assert_eq!(raid.parity_disk(k).len(), 0);
        assert_eq!(raid.parity_disk(k).capacity(), 7);
    }
}

#[test]
fn empty_disk_has_no_last_bit() {
    let disk = Disk::new(4, DiskType::Parity);
    assert_eq!(disk.get_last(), Err(RaidError::OutOfRange));
    assert_eq!(disk.get(0), Err(RaidError::OutOfRange));
    assert_eq!(disk.capacity(), 4);
    assert_eq!(disk.disk_type(), DiskType::Parity);
}

#[test]
fn layer_at_exact_boundary_is_incomplete() {
    let mut data = Data::new(4, 16);
    assert_eq!(data.get_data_layer(0), Err(RaidError::LayerIncomplete));
    data.write_sequence(&[true, false, true, false, false, false, true, true]).unwrap();
    assert_eq!(data.get_data_layer(1), Ok(vec![false, false, true, true]));
    assert_eq!(data.get_data_layer(2), Err(RaidError::LayerIncomplete));
    assert_eq!(data.get_data_layer(7), Err(RaidError::LayerIncomplete));
}

#[test]
fn layer_counter_moves_when_a_later_layer_starts() {
    let mut data = Data::new(4, 16);
    data.write_sequence(&[true; 4]).unwrap();
    assert_eq!(data.last_layer(), 0);
    data.write_sequence(&[true]).unwrap();
    assert_eq!(data.last_layer(), 1);
    data.write_sequence(&[true; 4]).unwrap();
    assert_eq!(data.last_layer(), 2);
}

#[test]
fn parity_bit_counts() {
    assert_eq!(parity_bits_count(0), 0);
    assert_eq!(parity_bits_count(1), 2);
    assert_eq!(parity_bits_count(4), 3);
    assert_eq!(parity_bits_count(5), 4);
    assert_eq!(parity_bits_count(11), 4);
    assert_eq!(parity_bits_count(12), 5);
}

#[test]
fn reserved_slots_are_inserted() {
    assert_eq!(add_bits(&[true, false, true, true]), vec![false, false, true, false, false, true, true]);
    assert_eq!(add_bits(&[true]), vec![false, false, true]);
    assert_eq!(add_bits(&[]), Vec::<bool>::new());
}

#[test]
fn parity_values_of_a_codeword() {
    // data 1011 at positions 3, 5, 6, 7 (counted from one)
    let code = add_bits(&[true, false, true, true]);
    assert_eq!(calculate_parity_bits(&code), vec![(0, false), (1, true), (3, false)]);
    assert_eq!(calculate_parity_bits(&[]), vec![]);
}

#[test]
fn highest_set_bit() {
    assert_eq!(get_power_of_two(0), 0);
    assert_eq!(get_power_of_two(1), 0);
    assert_eq!(get_power_of_two(2), 1);
    assert_eq!(get_power_of_two(7), 2);
    assert_eq!(get_power_of_two(8), 3);
}

#[test]
fn raid_encodes_only_started_layers() {
    let mut raid = Raid::new(Data::new(4, 16));
    assert_eq!(raid.parity_count(), 3);
    raid.write_sequence(&[false, true, false, true, false, true, true, false]).unwrap();
    assert_eq!(raid.parity_disk(0).len(), 1);
    raid.write_sequence(&[true]).unwrap();
    assert_eq!(raid.parity_disk(0).len(), 2);
    assert_eq!(raid.parity_disk(0).get(1), Ok(true));
    assert_eq!(raid.parity_disk(1).get(1), Ok(true));
    assert_eq!(raid.parity_disk(2).get(1), Ok(false));
}

#[test]
fn raid_refused_write_adds_no_parity() {
    let mut raid = Raid::new(Data::new(2, 2));
    assert_eq!(raid.parity_count(), 3);
    assert_eq!(raid.write_sequence(&[true, true, true, true]), Err(RaidError::CapacityExceeded));
    assert_eq!(raid.data().last_index(), 0);
    assert_eq!(raid.parity_disk(0).len(), 0);
    let data = raid.into_data();
    assert_eq!(data.disk_count(), 2);
}
