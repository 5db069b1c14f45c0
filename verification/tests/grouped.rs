use std::collections::BTreeSet;

use h3_raster::error::Error;
use h3_raster::grouped::GroupedH3Indexes;
use h3_raster::rasterconverter::{ConversionProgress, GroupedAccumulator};
use h3_raster::sink::CellSink;
use h3_raster::value::{classify_no_data, has_value, same_attributes, same_value, Value};
use h3o::{CellIndex, LatLng, Resolution};

fn cell(lat: f64, lng: f64, resolution: Resolution) -> CellIndex {
    LatLng::new(lat, lng).unwrap().to_cell(resolution)
}

fn children(parent: CellIndex, resolution: Resolution) -> Vec<u64> {
    parent.children(resolution).map(u64::from).collect()
}

fn set_of(groups: &GroupedH3Indexes, key: &Vec<Option<Value>>) -> BTreeSet<u64> {
    groups.get(key).unwrap().cells().iter().copied().collect()
}

#[test]
fn attribute_vectors_compare_position_by_position() {
    let a = vec![Some(Value::Uint8(5)), None];
    let b = vec![Some(Value::Uint8(5)), None];
    let c = vec![None, Some(Value::Uint8(5))];
    let d = vec![Some(Value::Uint16(5)), None];
    assert!(same_attributes(&a, &b));
    assert!(!same_attributes(&a, &c));
    assert!(!same_attributes(&a, &d));
    assert!(!same_attributes(&a, &vec![Some(Value::Uint8(5))]));
    assert!(same_value(&None, &None));
    assert!(!same_value(&None, &Some(Value::Int32(0))));
    assert!(same_value(&Some(Value::Float64(7)), &Some(Value::Float64(7))));
    assert!(!same_value(&Some(Value::Float32(7)), &Some(Value::Float32(8))));
}

#[test]
fn floats_are_keys_by_their_bits() {
    let nan = f64::NAN.to_bits();
    let other_nan = nan ^ 1;
    assert!(same_value(&Some(Value::Float64(nan)), &Some(Value::Float64(nan))));
    assert!(!same_value(&Some(Value::Float64(nan)), &Some(Value::Float64(other_nan))));
    assert!(!same_value(
        &Some(Value::Float64(0.0f64.to_bits())),
        &Some(Value::Float64((-0.0f64).to_bits()))
    ));
}

#[test]
fn the_no_data_value_becomes_no_data() {
    assert_eq!(classify_no_data(Value::Uint8(0), Value::Uint8(0)), None);
    assert_eq!(classify_no_data(Value::Uint8(5), Value::Uint8(0)), Some(Value::Uint8(5)));
    assert_eq!(classify_no_data(Value::Uint16(0), Value::Uint8(0)), Some(Value::Uint16(0)));
    let nan = f32::NAN.to_bits();
    assert_eq!(classify_no_data(Value::Float32(nan), Value::Float32(nan)), None);
}

#[test]
fn a_vector_is_present_with_one_value() {
    assert!(!has_value(&vec![]));
    assert!(!has_value(&vec![None, None]));
    assert!(has_value(&vec![None, Some(Value::Int16(-3))]));
}

#[test]
fn grouping_keeps_one_stack_per_vector() {
    let a = vec![Some(Value::Uint8(1))];
    let b = vec![Some(Value::Uint8(2))];
    let parent = cell(10.0, 20.0, Resolution::Five);
    let kids = children(parent, Resolution::Six);
    let mut groups = GroupedH3Indexes::new();
    assert!(groups.is_empty());
    assert_eq!(groups.append_to_resolution(&a, 6, &mut kids[..3].to_vec(), false), Ok(()));
    assert_eq!(groups.append_to_resolution(&b, 6, &mut kids[3..5].to_vec(), false), Ok(()));
    assert_eq!(groups.append_to_resolution(&a, 6, &mut kids[5..].to_vec(), false), Ok(()));
    assert_eq!(groups.len(), 2);
    assert!(!groups.is_empty());
    assert_eq!(groups.key(0), &a);
    assert_eq!(groups.key(1), &b);
    let mut expected = kids[..3].to_vec();
    expected.extend_from_slice(&kids[5..]);
    assert_eq!(groups.get(&a).unwrap().cells(), &expected);
    assert_eq!(groups.get(&b).unwrap().cells(), &kids[3..5].to_vec());
    assert!(groups.get(&vec![None]).is_none());
}

#[test]
fn a_refused_append_changes_nothing() {
    let a = vec![Some(Value::Uint8(1))];
    let mut groups = GroupedH3Indexes::new();
    let mut cells = vec![17];
    assert_eq!(groups.append_to_resolution(&a, 6, &mut cells, false), Err(Error::InvalidCellIndex));
    assert_eq!(cells, vec![17]);
    assert!(groups.is_empty());
    assert!(groups.get(&a).is_none());
}

#[test]
fn merging_concatenates_per_vector() {
    let a = vec![Some(Value::Uint8(1))];
    let b = vec![Some(Value::Uint8(2))];
    let c = vec![None, Some(Value::Uint8(2))];
    let parent = cell(10.0, 20.0, Resolution::Five);
    let kids = children(parent, Resolution::Six);
    let mut left = GroupedH3Indexes::new();
    left.append_to_resolution(&a, 6, &mut kids[..2].to_vec(), false).unwrap();
    left.append_to_resolution(&b, 6, &mut kids[2..3].to_vec(), false).unwrap();
    let mut right = GroupedH3Indexes::new();
    right.append_to_resolution(&c, 6, &mut kids[3..4].to_vec(), false).unwrap();
    right.append_to_resolution(&a, 6, &mut kids[4..].to_vec(), false).unwrap();
    left.merge(right);
    assert_eq!(left.len(), 3);
    let mut expected = kids[..2].to_vec();
    expected.extend_from_slice(&kids[4..]);
    assert_eq!(left.get(&a).unwrap().cells(), &expected);
    assert_eq!(left.get(&b).unwrap().cells(), &kids[2..3].to_vec());
    assert_eq!(left.get(&c).unwrap().cells(), &kids[3..4].to_vec());
}

#[test]
fn merging_in_any_order_gives_the_same_cells() {
    let a = vec![Some(Value::Uint8(1))];
    let b = vec![Some(Value::Uint8(2))];
    let parent = cell(10.0, 20.0, Resolution::Five);
    let kids = children(parent, Resolution::Six);
    let partial = |keys: &[(&Vec<Option<Value>>, &[u64])]| {
        let mut groups = GroupedH3Indexes::new();
        for (key, cells) in keys {
            groups.append_to_resolution(key, 6, &mut cells.to_vec(), false).unwrap();
        }
        groups
    };
    let parts = || {
        vec![
            partial(&[(&a, &kids[..2]), (&b, &kids[2..3])]),
            partial(&[(&a, &kids[3..5])]),
            partial(&[(&b, &kids[5..6]), (&a, &kids[6..])]),
        ]
    };
    let mut results = Vec::new();
    for order in [[0usize, 1, 2], [2, 1, 0], [1, 2, 0]] {
        let mut available: Vec<Option<GroupedH3Indexes>> = parts().into_iter().map(Some).collect();
        let mut accumulator = GroupedAccumulator::new(3);
        for i in order {
            accumulator.merge(available[i].take().unwrap());
        }
        accumulator.finalize(false);
        let gathered = accumulator.take();
        results.push((set_of(&gathered, &a), set_of(&gathered, &b), gathered.len()));
    }
    assert_eq!(results[0], results[1]);
    assert_eq!(results[0], results[2]);
    assert_eq!(results[0].0.len(), 5);
    assert_eq!(results[0].1.len(), 2);
    assert_eq!(results[0].2, 2);
}

#[test]
fn the_accumulator_counts_tiles_and_compacts_once() {
    let a = vec![Some(Value::Uint8(1))];
    let parent = cell(10.0, 20.0, Resolution::Five);
    let kids = children(parent, Resolution::Six);
    let mut accumulator = GroupedAccumulator::new(2);
    let mut first = GroupedH3Indexes::new();
    first.append_to_resolution(&a, 6, &mut kids[..4].to_vec(), true).unwrap();
    let mut second = GroupedH3Indexes::new();
    second.append_to_resolution(&a, 6, &mut kids[4..].to_vec(), true).unwrap();
    assert_eq!(accumulator.merge(first), ConversionProgress { tiles_total: 2, tiles_done: 1 });
    let progress = accumulator.merge(second);
    assert_eq!(progress, ConversionProgress { tiles_total: 2, tiles_done: 2 });
    assert_eq!(progress.position(), 2);
    accumulator.finalize(true);
    let gathered = accumulator.take();
    assert_eq!(gathered.get(&a).unwrap().cells(), &vec![u64::from(parent)]);
}

#[test]
fn without_the_flag_nothing_is_compacted() {
    let a = vec![Some(Value::Uint8(1))];
    let parent = cell(10.0, 20.0, Resolution::Five);
    let kids = children(parent, Resolution::Six);
    let mut accumulator = GroupedAccumulator::new(1);
    let mut first = GroupedH3Indexes::new();
    first.append_to_resolution(&a, 6, &mut kids.clone(), false).unwrap();
    accumulator.merge(first);
    accumulator.finalize(false);
    let mut gathered = accumulator.take();
    assert_eq!(gathered.get(&a).unwrap().cells(), &kids);
    gathered.compact();
    assert_eq!(gathered.get(&a).unwrap().cells(), &vec![u64::from(parent)]);
}

#[test]
fn a_sink_empties_buckets_beyond_the_limit() {
    let a = vec![Some(Value::Uint8(1))];
    let b = vec![Some(Value::Int32(-1)), None];
    let parent = cell(10.0, 20.0, Resolution::Five);
    let kids = children(parent, Resolution::Six);
    let mut sink = CellSink::new(6, 2, false);
    for (i, kid) in kids.iter().enumerate() {
        sink.emit(if i == 3 { &b } else { &a }, *kid);
    }
    let groups = sink.finish();
    assert_eq!(groups.len(), 2);
    let mut expected = kids.clone();
    expected.remove(3);
    assert_eq!(groups.get(&a).unwrap().cells(), &expected);
    assert_eq!(groups.get(&b).unwrap().cells(), &vec![kids[3]]);
}

#[test]
fn a_sink_compacts_run_by_run() {
    let a = vec![Some(Value::Uint8(1))];
    let parent = cell(10.0, 20.0, Resolution::Five);
    let kids = children(parent, Resolution::Six);
    let mut sink = CellSink::new(6, 3, true);
    for kid in kids.iter() {
        sink.emit(&a, *kid);
    }
    let groups = sink.finish();
    assert_eq!(groups.get(&a).unwrap().cells(), &vec![u64::from(parent)]);
    let empty = CellSink::new(6, 3, true).finish();
    assert!(empty.is_empty());
}
