use raid_2::data::Data;
use raid_2::disk::{Disk, DiskType};
use raid_2::raid::Raid;

#[test]
fn disk_write_get_test() {
    let mut disk = Disk::new(16, DiskType::Data);
    disk.write(false);
    disk.write(true);

    assert_eq!(false, disk.get(0).unwrap());
    assert_eq!(true, disk.get(1).unwrap());
}

#[test]
fn disk_get_last_test() {
    let mut disk = Disk::new(16, DiskType::Data);
    disk.write(false);
    disk.write(true);

    assert_eq!(true, disk.get_last().unwrap());
}

#[test]
fn disks_write_single_sequence_test() {
    let mut disks = Data::new(4, 16);

    disks.write_sequence(vec![false, false, true, true].as_slice()).unwrap();
    assert_eq!(disks.disk(0).get(0).unwrap(), false);
    assert_eq!(disks.disk(1).get(0).unwrap(), false);
    assert_eq!(disks.disk(2).get(0).unwrap(), true);
    assert_eq!(disks.disk(3).get(0).unwrap(), true);
    assert_eq!(disks.last_index(), 4);

    disks.write_sequence(vec![true, true, false, true].as_slice()).unwrap();
    assert_eq!(disks.disk(0).get(1).unwrap(), true);
    assert_eq!(disks.disk(1).get(1).unwrap(), true);
    assert_eq!(disks.disk(2).get(1).unwrap(), false);
    assert_eq!(disks.disk(3).get(1).unwrap(), true);
    assert_eq!(disks.last_index(), 8);
}

#[test]
fn disks_write_multi_layer_sequence_test() {
    let mut disks = Data::new(4, 16);
    disks.write_sequence(vec![true, false, true, true, false, false].as_slice()).unwrap();
    assert_eq!(disks.disk(0).get(0).unwrap(), true);
    assert_eq!(disks.disk(1).get(0).unwrap(), false);
    assert_eq!(disks.disk(2).get(0).unwrap(), true);
    assert_eq!(disks.disk(3).get(0).unwrap(), true);

    assert_eq!(disks.disk(0).get(1).unwrap(), false);
    assert_eq!(disks.disk(1).get(1).unwrap(), false);

    disks.write_sequence(vec![true, false, true].as_slice()).unwrap();
    assert_eq!(disks.disk(2).get(1).unwrap(), true);
    assert_eq!(disks.disk(3).get(1).unwrap(), false);
    assert_eq!(disks.disk(0).get(2).unwrap(), true);
}

#[test]
fn disks_read_slice_test() {
    let mut disks = Data::new(4, 16);

    disks.write_sequence(vec![false, false, true, true].as_slice()).unwrap();
    disks.write_sequence(vec![true, true, true, true].as_slice()).unwrap();

    let slice = disks.get_slice(1, 6).unwrap();
    assert_eq!(slice, &[false, true, true, true, true])
}

#[test]
fn disks_read_bit_test() {
    let mut disks = Data::new(4, 16);

    disks.write_sequence(vec![false, true, false, true].as_slice()).unwrap();
    disks.write_sequence(vec![false, true, true, false].as_slice()).unwrap();

    assert_eq!(disks.get_bit(3).unwrap(), true);
    assert_eq!(disks.get_bit(4).unwrap(), false);
    assert_eq!(disks.get_bit(5).unwrap(), true);
    assert_eq!(disks.get_bit(6).unwrap(), true);
    assert_eq!(disks.get_bit(7).unwrap(), false);
}

#[test]
fn disks_get_layer_test() {
    let mut disks = Data::new(4, 16);

    disks
        .write_sequence(vec![false, true, false, true, false, true, true, false, true].as_slice())
        .unwrap();

    assert_eq!(disks.get_data_layer(0).unwrap(), [false, true, false, true]);
    assert_eq!(disks.get_data_layer(1).unwrap(), [false, true, true, false]);
    assert_eq!(disks.get_data_layer(2).map_err(|e| e.message()), Err("Layer is not full"));
}

#[test]
fn raid_write_test() {
    let disks = Data::new(4, 16);
    let mut raid = Raid::new(disks);
    raid.write_sequence(vec![false, true, false, true, false, true, true, false, true].as_slice())
        .unwrap();
    assert_eq!(raid.parity_disk(0).get(0).unwrap(), false);
    assert_eq!(raid.parity_disk(1).get(0).unwrap(), true);
    assert_eq!(raid.parity_disk(2).get(0).unwrap(), false);

    assert_eq!(raid.data().get_data_layer(0).unwrap(), [false, true, false, true]);
    assert_eq!(raid.data().get_data_layer(1).unwrap(), [false, true, true, false]);

    assert_eq!(raid.parity_disk(0).get(1).unwrap(), true);
    assert_eq!(raid.parity_disk(1).get(1).unwrap(), true);
    assert_eq!(raid.parity_disk(2).get(1).unwrap(), false);

    assert_eq!(raid.parity_disk(0).get(2).map_err(|e| e.message()), Err("Index was too big."));
    assert_eq!(raid.parity_disk(1).get(2).map_err(|e| e.message()), Err("Index was too big."));
    assert_eq!(raid.parity_disk(2).get(2).map_err(|e| e.message()), Err("Index was too big."));
}
