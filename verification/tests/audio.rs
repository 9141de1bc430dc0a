use arbitrary_fixed::audio::block_buffers;
use arbitrary_fixed::audio::block_count;
use arbitrary_fixed::audio::channel_range;
use arbitrary_fixed::audio::choose_device;
use arbitrary_fixed::audio::compute_family;
use arbitrary_fixed::audio::device_rank;
use arbitrary_fixed::audio::dispatch_groups;
use arbitrary_fixed::audio::next_time;
use arbitrary_fixed::audio::subgroup_size;
use arbitrary_fixed::audio::DeviceCandidate;
use arbitrary_fixed::audio::DeviceKind;
use arbitrary_fixed::audio::Delivery;
use arbitrary_fixed::audio::OutputAction;
use arbitrary_fixed::audio::OutputState;
use arbitrary_fixed::audio::DATA_BUFFER_SAMPLES;
use arbitrary_fixed::audio::DATA_BUFFER_SIZE;

fn device(supports_extensions: bool, families: &[bool], kind: DeviceKind) -> DeviceCandidate {
    DeviceCandidate {
        supports_extensions,
        compute_families: families.to_vec(),
        kind,
    }
}

#[test]
fn device_kinds_are_ranked() {
    let kinds = [
        DeviceKind::DiscreteGpu,
        DeviceKind::IntegratedGpu,
        DeviceKind::VirtualGpu,
        DeviceKind::Cpu,
        DeviceKind::Other,
        DeviceKind::Unknown,
    ];
    for (i, k) in kinds.iter().enumerate() {
        assert_eq!(device_rank(*k), i as u32);
    }
}

#[test]
fn first_compute_family() {
    assert_eq!(compute_family(&[false, true, true]), Some(1));
    assert_eq!(compute_family(&[true]), Some(0));
    assert_eq!(compute_family(&[false, false]), None);
    assert_eq!(compute_family(&[]), None);
}

#[test]
fn the_most_preferred_usable_device_is_chosen() {
    let devices = vec![
        device(true, &[true], DeviceKind::Cpu),
        device(false, &[true], DeviceKind::DiscreteGpu),
        device(true, &[false, true], DeviceKind::IntegratedGpu),
        device(true, &[false, false], DeviceKind::DiscreteGpu),
        device(true, &[true], DeviceKind::IntegratedGpu),
    ];
    assert_eq!(choose_device(&devices), Some((2, 1)));
}

#[test]
fn ties_go_to_the_first_device() {
    let devices = vec![
        device(true, &[false, false, true], DeviceKind::Other),
        device(true, &[true], DeviceKind::Other),
    ];
    assert_eq!(choose_device(&devices), Some((0, 2)));
}

#[test]
fn no_usable_device() {
    let devices = vec![
        device(false, &[true], DeviceKind::DiscreteGpu),
        device(true, &[], DeviceKind::Cpu),
    ];
    assert_eq!(choose_device(&devices), None);
    assert_eq!(choose_device(&[]), None);
}

#[test]
fn subgroup_size_defaults_to_64() {
    assert_eq!(subgroup_size(Some(32)), 32);
    assert_eq!(subgroup_size(None), 64);
}

#[test]
fn one_workgroup_per_subgroup_of_samples() {
    assert_eq!(dispatch_groups(64), 128);
    assert_eq!(dispatch_groups(32), 256);
    assert_eq!(dispatch_groups(1), DATA_BUFFER_SAMPLES);
}

#[test]
fn channels_follow_one_another() {
    assert_eq!(channel_range(0), (0, 8192));
    assert_eq!(channel_range(1), (8192, 16384));
    assert_eq!(channel_range(1).1, DATA_BUFFER_SIZE as usize);
}

#[test]
fn playback_schedule() {
    assert_eq!(block_count(), 64);
    assert_eq!(block_buffers(0), (0, 1));
    assert_eq!(block_buffers(1), (1, 0));
    assert_eq!(block_buffers(63), (1, 0));
    assert_eq!(next_time(0), 8192);
    assert_eq!(next_time(8192), 16384);
}

#[test]
fn output_stops_at_the_end_of_the_stream() {
    let mut s = OutputState::new();
    assert!(s.wants_delivery());
    assert_eq!(s.receive(Delivery::Block), OutputAction::PlayAndAcknowledge);
    assert!(s.wants_delivery());
    assert_eq!(s.receive(Delivery::EndOfStream), OutputAction::Stop);
    assert!(!s.wants_delivery());
}
