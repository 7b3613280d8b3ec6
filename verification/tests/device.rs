use whisper_ct2::device::{
    asks_for_cuda, available_devices, compute_type_label, device_label, load_failed,
    parse_compute_type, parse_device, plan_load, resolve_device, AvailableDevices, ComputeType,
    CudaSupport, Device, LoadOpts, QueueSettings,
};

const NO_CUDA: CudaSupport = CudaSupport { supported: false, devices: 0 };
const NO_GPU: CudaSupport = CudaSupport { supported: true, devices: 0 };
const TWO_GPUS: CudaSupport = CudaSupport { supported: true, devices: 2 };
const DEFAULTS: QueueSettings = QueueSettings { max_queued_batches: 0, cpu_core_offset: -1 };

fn no_opts() -> LoadOpts {
    LoadOpts {
        device: None,
        compute_type: None,
        device_indices: None,
        num_threads_per_replica: None,
        max_queued_batches: None,
        cpu_core_offset: None,
    }
}

#[test]
fn parse_device_accepts_canonical_names() {
    assert!(matches!(parse_device("cpu").unwrap(), Device::CPU));
    assert!(matches!(parse_device("CUDA").unwrap(), Device::CUDA));
    assert!(matches!(parse_device("gpu").unwrap(), Device::CUDA));
    assert!(parse_device("tpu").is_err());
}

#[test]
fn an_unknown_device_is_named_in_the_report() {
    let err = parse_device("TPU").unwrap_err();
    assert_eq!(err.reason(), "invalid_request");
    assert_eq!(err.message(), "unknown device");
    assert_eq!(err.detail("device"), Some("tpu"));
    assert_eq!(err.detail("supported"), Some("cpu,cuda"));
}

#[test]
fn parse_compute_type_accepts_aliases() {
    assert!(matches!(parse_compute_type("fp16").unwrap(), ComputeType::FLOAT16));
    assert!(matches!(
        parse_compute_type("int8_float16").unwrap(),
        ComputeType::INT8_FLOAT16
    ));
    assert!(parse_compute_type("nibble").is_err());
}

#[test]
fn every_compute_type_parses_back_from_its_label() {
    for compute_type in [
        ComputeType::DEFAULT,
        ComputeType::AUTO,
        ComputeType::FLOAT32,
        ComputeType::FLOAT16,
        ComputeType::BFLOAT16,
        ComputeType::INT8,
        ComputeType::INT8_FLOAT32,
        ComputeType::INT8_FLOAT16,
        ComputeType::INT8_BFLOAT16,
        ComputeType::INT16,
    ] {
        assert_eq!(parse_compute_type(compute_type_label(compute_type)).unwrap(), compute_type);
    }
    assert_eq!(parse_compute_type("BF16").unwrap(), ComputeType::BFLOAT16);
    assert_eq!(parse_compute_type("FP32").unwrap(), ComputeType::FLOAT32);
    let err = parse_compute_type("Nibble").unwrap_err();
    assert_eq!(err.detail("compute_type"), Some("nibble"));
}

#[test]
fn every_device_parses_back_from_its_label() {
    for device in [Device::CPU, Device::CUDA] {
        assert_eq!(parse_device(device_label(device)).unwrap(), device);
    }
}

#[test]
fn resolve_device_auto_falls_back_to_cpu_without_cuda() {
    for cuda in [NO_CUDA, NO_GPU] {
        assert!(matches!(resolve_device(None, cuda).unwrap(), Device::CPU));
        assert!(matches!(resolve_device(Some("auto"), cuda).unwrap(), Device::CPU));
    }
}

#[test]
fn resolve_device_rejects_cuda_when_unavailable() {
    let err = resolve_device(Some("cuda"), NO_CUDA).unwrap_err();
    assert_eq!(err.reason(), "invalid_request");
    assert!(err.message().contains("CUDA"));
}

#[test]
fn resolve_device_takes_cuda_where_it_is_there() {
    assert_eq!(resolve_device(None, TWO_GPUS).unwrap(), Device::CUDA);
    assert_eq!(resolve_device(Some("AUTO"), TWO_GPUS).unwrap(), Device::CUDA);
    assert_eq!(resolve_device(Some("GPU"), TWO_GPUS).unwrap(), Device::CUDA);
    assert_eq!(resolve_device(Some("cpu"), TWO_GPUS).unwrap(), Device::CPU);
    for devices in [0, -1] {
        let none = CudaSupport { supported: true, devices };
        let err = resolve_device(Some("cuda"), none).unwrap_err();
        assert_eq!(err.message(), "no CUDA devices visible to CTranslate2");
    }
    let err = resolve_device(Some("cuda"), NO_CUDA).unwrap_err();
    assert_eq!(
        err.detail("rebuild_with"),
        Some("WHISPER_CT2_FEATURES=cuda-dynamic mix compile")
    );
}

#[test]
fn devices_are_only_counted_where_they_matter() {
    assert!(asks_for_cuda(None));
    assert!(asks_for_cuda(Some("Auto")));
    assert!(asks_for_cuda(Some("gpu")));
    assert!(!asks_for_cuda(Some("cpu")));
    assert!(!asks_for_cuda(Some("tpu")));
}

#[test]
fn a_build_without_cuda_has_no_cuda_device() {
    let odd = CudaSupport { supported: false, devices: 3 };
    assert_eq!(
        available_devices(1, odd),
        AvailableDevices { cpu: 1, cuda: 0, cuda_supported: false }
    );
    assert_eq!(
        available_devices(1, TWO_GPUS),
        AvailableDevices { cpu: 1, cuda: 2, cuda_supported: true }
    );
}

#[test]
fn a_load_without_options_uses_the_defaults() {
    let plan = plan_load("/models/tiny", true, no_opts(), NO_CUDA, DEFAULTS).unwrap();
    assert_eq!(plan.device, Device::CPU);
    assert_eq!(plan.compute_type, ComputeType::DEFAULT);
    assert_eq!(plan.device_indices, vec![0]);
    assert_eq!(plan.num_threads_per_replica, 0);
    assert_eq!(plan.queue.max_queued_batches, 0);
    assert_eq!(plan.queue.cpu_core_offset, -1);
}

#[test]
fn a_load_with_options_uses_them() {
    let opts = LoadOpts {
        device: Some("cuda".to_owned()),
        compute_type: Some("int8".to_owned()),
        device_indices: Some(vec![1, 0]),
        num_threads_per_replica: Some(4),
        max_queued_batches: Some(-1),
        cpu_core_offset: Some(2),
    };
    let plan = plan_load("/models/tiny", true, opts, TWO_GPUS, DEFAULTS).unwrap();
    assert_eq!(plan.device, Device::CUDA);
    assert_eq!(plan.compute_type, ComputeType::INT8);
    assert_eq!(plan.device_indices, vec![1, 0]);
    assert_eq!(plan.num_threads_per_replica, 4);
    assert_eq!(plan.queue.max_queued_batches, -1);
    assert_eq!(plan.queue.cpu_core_offset, 2);
}

#[test]
fn a_load_fails_on_the_first_thing_that_is_wrong() {
    let bad = || LoadOpts {
        device: Some("tpu".to_owned()),
        compute_type: Some("nibble".to_owned()),
        device_indices: Some(Vec::new()),
        ..no_opts()
    };
    let err = plan_load("/nowhere", false, bad(), NO_CUDA, DEFAULTS).unwrap_err();
    assert_eq!(err.message(), "model path is not a directory");
    assert_eq!(err.detail("path"), Some("/nowhere"));

    let err = plan_load("/models", true, bad(), NO_CUDA, DEFAULTS).unwrap_err();
    assert_eq!(err.message(), "unknown device");

    let opts = LoadOpts { device: None, ..bad() };
    let err = plan_load("/models", true, opts, NO_CUDA, DEFAULTS).unwrap_err();
    assert_eq!(err.message(), "unknown compute_type");

    let opts = LoadOpts { device: None, compute_type: None, ..bad() };
    let err = plan_load("/models", true, opts, NO_CUDA, DEFAULTS).unwrap_err();
    assert_eq!(err.message(), "device_indices must be non-empty");
}

#[test]
fn a_failed_load_is_reported_with_its_circumstances() {
    let err = load_failed("no model.bin".to_owned(), "/m", Device::CUDA, ComputeType::INT8);
    assert_eq!(err.reason(), "load_error");
    assert_eq!(err.message(), "failed to load Whisper model");
    assert_eq!(err.detail("reason"), Some("no model.bin"));
    assert_eq!(err.detail("path"), Some("/m"));
    assert_eq!(err.detail("device"), Some("cuda"));
    assert_eq!(err.detail("compute_type"), Some("int8"));
}
