//! Where and how a model runs: devices, compute types, and the plan for
//! loading a model.

use vstd::prelude::*;
use vstd::string::*;

use crate::errors::{native, NativeError, NativeErrorView};
use crate::text::{lower_of, optional_text, same_text, to_lower};

verus! {

/// A device that a model runs on.
#[derive(Clone, Copy, Debug, PartialEq, Eq, Structural)]
pub enum Device {
    CPU,
    CUDA,
}

/// The precision that a model computes in.
#[allow(non_camel_case_types)]
#[derive(Clone, Copy, Debug, PartialEq, Eq, Structural)]
pub enum ComputeType {
    DEFAULT,
    AUTO,
    FLOAT32,
    FLOAT16,
    BFLOAT16,
    INT8,
    INT8_FLOAT32,
    INT8_FLOAT16,
    INT8_BFLOAT16,
    INT16,
}

/// The device with the given lower-case name.
pub open spec fn device_named(name: Seq<char>) -> Option<Device> {
    if name == "cpu"@ {
        Some(Device::CPU)
    } else if name == "cuda"@ || name == "gpu"@ {
        Some(Device::CUDA)
    } else {
        None
    }
}

/// The report for an unknown device.
pub open spec fn unknown_device(name: Seq<char>) -> NativeErrorView {
    native("invalid_request"@, "unknown device"@).with("device"@, name).with(
        "supported"@,
        "cpu,cuda"@,
    )
}

/// The device that a name stands for. Case does not matter.
pub open spec fn device_of(s: Seq<char>) -> Result<Device, NativeErrorView> {
    match device_named(lower_of(s)) {
        Some(device) => Ok(device),
        None => Err(unknown_device(lower_of(s))),
    }
}

/// The device that a name stands for.
pub fn parse_device(s: &str) -> (r: Result<Device, NativeError>)
    ensures
        match r {
            Ok(device) => device_of(s@) == Ok::<_, NativeErrorView>(device),
            Err(e) => device_of(s@) == Err::<Device, _>(e@),
        },
{
    let name = to_lower(s);
    if same_text(name.as_str(), "cpu") {
        Ok(Device::CPU)
    } else if same_text(name.as_str(), "cuda") || same_text(name.as_str(), "gpu") {
        Ok(Device::CUDA)
    } else {
        Err(
            NativeError::new("invalid_request", "unknown device".to_owned()).with_detail(
                "device",
                name,
            ).with_detail("supported", "cpu,cuda".to_owned()),
        )
    }
}

/// The name of a device.
pub open spec fn device_label_of(d: Device) -> Seq<char> {
    match d {
        Device::CPU => "cpu"@,
        Device::CUDA => "cuda"@,
    }
}

/// The name of a device.
pub fn device_label(d: Device) -> (r: &'static str)
    ensures
        r@ == device_label_of(d),
{
    match d {
        Device::CPU => "cpu",
        Device::CUDA => "cuda",
    }
}

/// The compute type with the given lower-case name.
pub open spec fn compute_type_named(name: Seq<char>) -> Option<ComputeType> {
    if name == "default"@ {
        Some(ComputeType::DEFAULT)
    } else if name == "auto"@ {
        Some(ComputeType::AUTO)
    } else if name == "float32"@ || name == "fp32"@ {
        Some(ComputeType::FLOAT32)
    } else if name == "float16"@ || name == "fp16"@ {
        Some(ComputeType::FLOAT16)
    } else if name == "bfloat16"@ || name == "bf16"@ {
        Some(ComputeType::BFLOAT16)
    } else if name == "int8"@ {
        Some(ComputeType::INT8)
    } else if name == "int8_float32"@ {
        Some(ComputeType::INT8_FLOAT32)
    } else if name == "int8_float16"@ {
        Some(ComputeType::INT8_FLOAT16)
    } else if name == "int8_bfloat16"@ {
        Some(ComputeType::INT8_BFLOAT16)
    } else if name == "int16"@ {
        Some(ComputeType::INT16)
    } else {
        None
    }
}

/// The report for an unknown compute type.
pub open spec fn unknown_compute_type(name: Seq<char>) -> NativeErrorView {
    native("invalid_request"@, "unknown compute_type"@).with("compute_type"@, name)
}

/// The compute type that a name stands for. Case does not matter.
pub open spec fn compute_type_of(s: Seq<char>) -> Result<ComputeType, NativeErrorView> {
    match compute_type_named(lower_of(s)) {
        Some(compute_type) => Ok(compute_type),
        None => Err(unknown_compute_type(lower_of(s))),
    }
}

/// The compute type that a name stands for.
pub fn parse_compute_type(s: &str) -> (r: Result<ComputeType, NativeError>)
    ensures
        match r {
            Ok(compute_type) => compute_type_of(s@) == Ok::<_, NativeErrorView>(compute_type),
            Err(e) => compute_type_of(s@) == Err::<ComputeType, _>(e@),
        },
{
    let lowered = to_lower(s);
    let name = lowered.as_str();
    if same_text(name, "default") {
        Ok(ComputeType::DEFAULT)
    } else if same_text(name, "auto") {
        Ok(ComputeType::AUTO)
    } else if same_text(name, "float32") || same_text(name, "fp32") {
        Ok(ComputeType::FLOAT32)
    } else if same_text(name, "float16") || same_text(name, "fp16") {
        Ok(ComputeType::FLOAT16)
    } else if same_text(name, "bfloat16") || same_text(name, "bf16") {
        Ok(ComputeType::BFLOAT16)
    } else if same_text(name, "int8") {
        Ok(ComputeType::INT8)
    } else if same_text(name, "int8_float32") {
        Ok(ComputeType::INT8_FLOAT32)
    } else if same_text(name, "int8_float16") {
        Ok(ComputeType::INT8_FLOAT16)
    } else if same_text(name, "int8_bfloat16") {
        Ok(ComputeType::INT8_BFLOAT16)
    } else if same_text(name, "int16") {
        Ok(ComputeType::INT16)
    } else {
        Err(
            NativeError::new("invalid_request", "unknown compute_type".to_owned()).with_detail(
                "compute_type",
                lowered,
            ),
        )
    }
}

/// The name of a compute type.
pub open spec fn compute_type_label_of(c: ComputeType) -> Seq<char> {
    match c {
        ComputeType::DEFAULT => "default"@,
        ComputeType::AUTO => "auto"@,
        ComputeType::FLOAT32 => "float32"@,
        ComputeType::FLOAT16 => "float16"@,
        ComputeType::BFLOAT16 => "bfloat16"@,
        ComputeType::INT8 => "int8"@,
        ComputeType::INT8_FLOAT32 => "int8_float32"@,
        ComputeType::INT8_FLOAT16 => "int8_float16"@,
        ComputeType::INT8_BFLOAT16 => "int8_bfloat16"@,
        ComputeType::INT16 => "int16"@,
    }
}

/// The name of a compute type.
pub fn compute_type_label(c: ComputeType) -> (r: &'static str)
    ensures
        r@ == compute_type_label_of(c),
{
    match c {
        ComputeType::DEFAULT => "default",
        ComputeType::AUTO => "auto",
        ComputeType::FLOAT32 => "float32",
        ComputeType::FLOAT16 => "float16",
        ComputeType::BFLOAT16 => "bfloat16",
        ComputeType::INT8 => "int8",
        ComputeType::INT8_FLOAT32 => "int8_float32",
        ComputeType::INT8_FLOAT16 => "int8_float16",
        ComputeType::INT8_BFLOAT16 => "int8_bfloat16",
        ComputeType::INT16 => "int16",
    }
}

/// The name of a device parses back to it.
pub proof fn law_device_label_round_trip(d: Device)
    ensures
        device_of(device_label_of(d)) == Ok::<_, NativeErrorView>(d),
{
    reveal_strlit("cpu");
    reveal_strlit("cuda");
    reveal_strlit("gpu");
    let label = device_label_of(d);
    assert(lower_of(label) =~= label);
    match d {
        Device::CPU => {},
        Device::CUDA => {
            assert("cuda"@.len() == 4 && "cpu"@.len() == 3);
        },
    }
}

/// The name of a compute type parses back to it.
pub proof fn law_compute_type_label_round_trip(c: ComputeType)
    ensures
        compute_type_of(compute_type_label_of(c)) == Ok::<_, NativeErrorView>(c),
{
    reveal_strlit("default");
    reveal_strlit("auto");
    reveal_strlit("float32");
    reveal_strlit("fp32");
    reveal_strlit("float16");
    reveal_strlit("fp16");
    reveal_strlit("bfloat16");
    reveal_strlit("bf16");
    reveal_strlit("int8");
    reveal_strlit("int8_float32");
    reveal_strlit("int8_float16");
    reveal_strlit("int8_bfloat16");
    reveal_strlit("int16");
    let label = compute_type_label_of(c);
    assert(lower_of(label) =~= label);
    assert("default"@[0] == 'd' && "auto"@[0] == 'a' && "float32"@[5] == '3');
    assert("float16"@[5] == '1' && "int8"@[3] == '8' && "int8_float32"@[10] == '3');
    assert("int8_float16"@[10] == '1' && "int16"@[3] == '1' && "auto"@[1] == 'u');
}

/// What the build and the machine offer: whether CUDA is built in, and how
/// many CUDA devices are visible.
#[derive(Clone, Copy, Debug)]
pub struct CudaSupport {
    pub supported: bool,
    pub devices: i32,
}

/// The report for a request for CUDA on a build without it.
pub open spec fn no_cuda_build() -> NativeErrorView {
    native(
        "invalid_request"@,
        "this build of whisper_ct2 was not compiled with CUDA support"@,
    ).with("rebuild_with"@, "WHISPER_CT2_FEATURES=cuda-dynamic mix compile"@)
}

/// The report for a request for CUDA without a device.
pub open spec fn no_cuda_device() -> NativeErrorView {
    native("invalid_request"@, "no CUDA devices visible to CTranslate2"@)
}

/// The device to use. No request, or `auto`, takes CUDA where it is built
/// in and a device is visible, and the CPU otherwise. A request for CUDA
/// fails where either condition does.
pub open spec fn resolved(requested: Option<Seq<char>>, cuda: CudaSupport) -> Result<
    Device,
    NativeErrorView,
> {
    match requested {
        Some(name) if lower_of(name) != "auto"@ => match device_of(lower_of(name)) {
            Err(e) => Err(e),
            Ok(Device::CPU) => Ok(Device::CPU),
            Ok(Device::CUDA) => if !cuda.supported {
                Err(no_cuda_build())
            } else if cuda.devices <= 0 {
                Err(no_cuda_device())
            } else {
                Ok(Device::CUDA)
            },
        },
        _ => if cuda.supported && cuda.devices > 0 {
            Ok(Device::CUDA)
        } else {
            Ok(Device::CPU)
        },
    }
}

/// What a requested name holds.
pub open spec fn text_in(s: Option<&str>) -> Option<Seq<char>> {
    match s {
        Some(s) => Some(s@),
        None => None,
    }
}

/// The device to use.
pub fn resolve_device(requested: Option<&str>, cuda: CudaSupport) -> (r: Result<
    Device,
    NativeError,
>)
    ensures
        match r {
            Ok(device) => resolved(text_in(requested), cuda) == Ok::<_, NativeErrorView>(device),
            Err(e) => resolved(text_in(requested), cuda) == Err::<Device, _>(e@),
        },
{
    if let Some(name) = requested {
        let lowered = to_lower(name);
        if !same_text(lowered.as_str(), "auto") {
            let device = parse_device(lowered.as_str())?;
            if device == Device::CUDA {
                if !cuda.supported {
                    return Err(
                        NativeError::new(
                            "invalid_request",
                            "this build of whisper_ct2 was not compiled with CUDA support".to_owned(),
                        ).with_detail(
                            "rebuild_with",
                            "WHISPER_CT2_FEATURES=cuda-dynamic mix compile".to_owned(),
                        ),
                    );
                }
                if cuda.devices <= 0 {
                    return Err(
                        NativeError::new(
                            "invalid_request",
                            "no CUDA devices visible to CTranslate2".to_owned(),
                        ),
                    );
                }
            }
            return Ok(device);
        }
    }
    if cuda.supported && cuda.devices > 0 {
        Ok(Device::CUDA)
    } else {
        Ok(Device::CPU)
    }
}

/// Whether the choice of a device depends on the visible CUDA devices.
pub open spec fn depends_on_cuda(requested: Option<Seq<char>>) -> bool {
    match requested {
        Some(name) => lower_of(name) == "auto"@ || device_of(lower_of(name)) == Ok::<
            _,
            NativeErrorView,
        >(Device::CUDA),
        None => true,
    }
}

/// Whether the choice of a device depends on the visible CUDA devices.
/// Counting them starts up the driver, so nobody should where it does not.
pub fn asks_for_cuda(requested: Option<&str>) -> (r: bool)
    ensures
        r == depends_on_cuda(text_in(requested)),
{
    match requested {
        Some(name) => {
            let lowered = to_lower(name);
            same_text(lowered.as_str(), "auto") || match parse_device(lowered.as_str()) {
                Ok(device) => device == Device::CUDA,
                Err(_) => false,
            }
        },
        None => true,
    }
}

/// Where the choice does not depend on the CUDA devices, it is the same for
/// any number of them.
pub proof fn law_cuda_count_can_wait(
    requested: Option<Seq<char>>,
    one: CudaSupport,
    other: CudaSupport,
)
    requires
        !depends_on_cuda(requested),
    ensures
        resolved(requested, one) == resolved(requested, other),
{
}

/// A resolved device can be used: CUDA is only chosen where it is built in
/// and a device is visible.
pub proof fn law_resolved_device_is_usable(requested: Option<Seq<char>>, cuda: CudaSupport)
    ensures
        resolved(requested, cuda) == Ok::<_, NativeErrorView>(Device::CUDA) ==> cuda.supported
            && cuda.devices > 0,
        requested is None ==> resolved(requested, cuda) is Ok,
{
}

/// The devices that a build can use.
#[derive(Clone, Copy, Debug, PartialEq, Eq)]
pub struct AvailableDevices {
    pub cpu: i32,
    pub cuda: i32,
    pub cuda_supported: bool,
}

/// The devices that a build can use. A build without CUDA has no CUDA
/// device.
pub fn available_devices(cpu: i32, cuda: CudaSupport) -> (r: AvailableDevices)
    ensures
        r.cpu == cpu,
        r.cuda == if cuda.supported {
            cuda.devices
        } else {
            0
        },
        r.cuda_supported == cuda.supported,
{
    AvailableDevices {
        cpu,
        cuda: if cuda.supported {
            cuda.devices
        } else {
            0
        },
        cuda_supported: cuda.supported,
    }
}

/// How a model is asked to be loaded.
#[derive(Debug)]
pub struct LoadOpts {
    pub device: Option<String>,
    pub compute_type: Option<String>,
    pub device_indices: Option<Vec<i32>>,
    pub num_threads_per_replica: Option<u32>,
    pub max_queued_batches: Option<i32>,
    pub cpu_core_offset: Option<i32>,
}

/// The settings of the engine that loading leaves alone unless asked.
#[derive(Clone, Copy, Debug)]
pub struct QueueSettings {
    pub max_queued_batches: i32,
    pub cpu_core_offset: i32,
}

/// How a model is loaded.
#[derive(Debug)]
pub struct LoadPlan {
    pub device: Device,
    pub compute_type: ComputeType,
    pub device_indices: Vec<i32>,
    pub num_threads_per_replica: usize,
    pub queue: QueueSettings,
}

/// What a [`LoadPlan`] holds.
#[verifier::ext_equal]
pub struct LoadPlanView {
    pub device: Device,
    pub compute_type: ComputeType,
    pub device_indices: Seq<i32>,
    pub num_threads_per_replica: nat,
    pub queue: QueueSettings,
}

impl View for LoadPlan {
    type V = LoadPlanView;

    open spec fn view(&self) -> LoadPlanView {
        LoadPlanView {
            device: self.device,
            compute_type: self.compute_type,
            device_indices: self.device_indices@,
            num_threads_per_replica: self.num_threads_per_replica as nat,
            queue: self.queue,
        }
    }
}

/// The value that was given, or else the default.
pub open spec fn given<T>(value: Option<T>, default: T) -> T {
    match value {
        Some(v) => v,
        None => default,
    }
}

/// The report for a path that is no directory.
pub open spec fn not_a_directory(path: Seq<char>) -> NativeErrorView {
    native("invalid_request"@, "model path is not a directory"@).with("path"@, path)
}

/// The compute type to use. None asked for keeps the model's own.
pub open spec fn chosen_compute_type(requested: Option<Seq<char>>) -> Result<
    ComputeType,
    NativeErrorView,
> {
    match requested {
        Some(name) => compute_type_of(name),
        None => Ok(ComputeType::DEFAULT),
    }
}

/// How a model is loaded, or the first thing that is wrong with the
/// request.
pub open spec fn planned(
    path: Seq<char>,
    path_is_dir: bool,
    opts: LoadOpts,
    cuda: CudaSupport,
    defaults: QueueSettings,
) -> Result<LoadPlanView, NativeErrorView> {
    if !path_is_dir {
        Err(not_a_directory(path))
    } else {
        match (resolved(optional_text(opts.device), cuda), chosen_compute_type(
            optional_text(opts.compute_type),
        )) {
            (Err(e), _) => Err(e),
            (_, Err(e)) => Err(e),
            (Ok(device), Ok(compute_type)) => {
                let indices = match opts.device_indices {
                    Some(list) => list@,
                    None => seq![0i32],
                };
                if indices.len() == 0 {
                    Err(native("invalid_request"@, "device_indices must be non-empty"@))
                } else {
                    Ok(
                        LoadPlanView {
                            device,
                            compute_type,
                            device_indices: indices,
                            num_threads_per_replica: given(opts.num_threads_per_replica, 0) as nat,
                            queue: QueueSettings {
                                max_queued_batches: given(
                                    opts.max_queued_batches,
                                    defaults.max_queued_batches,
                                ),
                                cpu_core_offset: given(
                                    opts.cpu_core_offset,
                                    defaults.cpu_core_offset,
                                ),
                            },
                        },
                    )
                }
            },
        }
    }
}

/// Plans how a model is loaded.
pub fn plan_load(
    path: &str,
    path_is_dir: bool,
    opts: LoadOpts,
    cuda: CudaSupport,
    defaults: QueueSettings,
) -> (r: Result<LoadPlan, NativeError>)
    ensures
        match r {
            Ok(plan) => planned(path@, path_is_dir, opts, cuda, defaults) == Ok::<
                _,
                NativeErrorView,
            >(plan@),
            Err(e) => planned(path@, path_is_dir, opts, cuda, defaults) == Err::<LoadPlanView, _>(
                e@,
            ),
        },
{
    if !path_is_dir {
        return Err(
            NativeError::new(
                "invalid_request",
                "model path is not a directory".to_owned(),
            ).with_detail("path", path.to_owned()),
        );
    }
    let device = match &opts.device {
        Some(name) => resolve_device(Some(name.as_str()), cuda)?,
        None => resolve_device(None, cuda)?,
    };
    let compute_type = match &opts.compute_type {
        Some(name) => parse_compute_type(name.as_str())?,
        None => ComputeType::DEFAULT,
    };
    let device_indices = match opts.device_indices {
        Some(list) => {
            if list.len() == 0 {
                return Err(
                    NativeError::new(
                        "invalid_request",
                        "device_indices must be non-empty".to_owned(),
                    ),
                );
            }
            list
        },
        None => vec![0i32],
    };
    let plan = LoadPlan {
        device,
        compute_type,
        device_indices,
        num_threads_per_replica: match opts.num_threads_per_replica {
            Some(n) => n as usize,
            None => 0,
        },
        queue: QueueSettings {
            max_queued_batches: match opts.max_queued_batches {
                Some(v) => v,
                None => defaults.max_queued_batches,
            },
            cpu_core_offset: match opts.cpu_core_offset {
                Some(v) => v,
                None => defaults.cpu_core_offset,
            },
        },
    };
    assert(opts.device_indices is None ==> plan.device_indices@ =~= seq![0i32]);
    Ok(plan)
}

/// The report of a model that failed to load.
pub fn load_failed(
    reason: String,
    path: &str,
    device: Device,
    compute_type: ComputeType,
) -> (r: NativeError)
    ensures
        r@ == native("load_error"@, "failed to load Whisper model"@).with("reason"@, reason@).with(
            "path"@,
            path@,
        ).with("device"@, device_label_of(device)).with(
            "compute_type"@,
            compute_type_label_of(compute_type),
        ),
{
    NativeError::new("load_error", "failed to load Whisper model".to_owned()).with_detail(
        "reason",
        reason,
    ).with_detail("path", path.to_owned()).with_detail(
        "device",
        device_label(device).to_owned(),
    ).with_detail("compute_type", compute_type_label(compute_type).to_owned())
}

/// A name stands for a device whatever its case: `cpu` for the CPU, `cuda`
/// and `gpu` for CUDA, and no other name for any. A refusal is the caller's
/// fault, and names the device.
pub proof fn law_device_names(s: Seq<char>)
    ensures
        device_of(s) == Ok::<_, NativeErrorView>(Device::CPU) <==> lower_of(s) == "cpu"@,
        device_of(s) == Ok::<_, NativeErrorView>(Device::CUDA) <==> (lower_of(s) == "cuda"@
            || lower_of(s) == "gpu"@),
        device_of(lower_of(s)) == device_of(s),
        device_of(s) matches Err(e) ==> {
            &&& e.reason == "invalid_request"@
            &&& e.message == "unknown device"@
            &&& e.details["device"@] == lower_of(s)
            &&& e.details["supported"@] == "cpu,cuda"@
        },
{
    reveal_strlit("cpu");
    reveal_strlit("cuda");
    reveal_strlit("gpu");
    reveal_strlit("device");
    reveal_strlit("supported");
    assert("cpu"@.len() == 3 && "cuda"@.len() == 4 && "gpu"@[0] == 'g' && "cpu"@[0] == 'c');
    assert("device"@.len() != "supported"@.len());
    assert(lower_of(lower_of(s)) =~= lower_of(s));
}

/// A name stands for a compute type whatever its case, and each compute
/// type has these names and no others.
pub proof fn law_compute_type_names(s: Seq<char>)
    ensures
        compute_type_of(s) == Ok::<_, NativeErrorView>(ComputeType::DEFAULT) <==> lower_of(s)
            == "default"@,
        compute_type_of(s) == Ok::<_, NativeErrorView>(ComputeType::AUTO) <==> lower_of(s)
            == "auto"@,
        compute_type_of(s) == Ok::<_, NativeErrorView>(ComputeType::FLOAT32) <==> (lower_of(s)
            == "float32"@ || lower_of(s) == "fp32"@),
        compute_type_of(s) == Ok::<_, NativeErrorView>(ComputeType::FLOAT16) <==> (lower_of(s)
            == "float16"@ || lower_of(s) == "fp16"@),
        compute_type_of(s) == Ok::<_, NativeErrorView>(ComputeType::BFLOAT16) <==> (lower_of(s)
            == "bfloat16"@ || lower_of(s) == "bf16"@),
        compute_type_of(s) == Ok::<_, NativeErrorView>(ComputeType::INT8) <==> lower_of(s)
            == "int8"@,
        compute_type_of(s) == Ok::<_, NativeErrorView>(ComputeType::INT8_FLOAT32) <==> lower_of(s)
            == "int8_float32"@,
        compute_type_of(s) == Ok::<_, NativeErrorView>(ComputeType::INT8_FLOAT16) <==> lower_of(s)
            == "int8_float16"@,
        compute_type_of(s) == Ok::<_, NativeErrorView>(ComputeType::INT8_BFLOAT16) <==> lower_of(s)
            == "int8_bfloat16"@,
        compute_type_of(s) == Ok::<_, NativeErrorView>(ComputeType::INT16) <==> lower_of(s)
            == "int16"@,
        compute_type_of(s) matches Err(e) ==> e.reason == "invalid_request"@ && e.message
            == "unknown compute_type"@ && e.details["compute_type"@] == lower_of(s),
{
    reveal_strlit("default");
    reveal_strlit("auto");
    reveal_strlit("float32");
    reveal_strlit("fp32");
    reveal_strlit("float16");
    reveal_strlit("fp16");
    reveal_strlit("bfloat16");
    reveal_strlit("bf16");
    reveal_strlit("int8");
    reveal_strlit("int8_float32");
    reveal_strlit("int8_float16");
    reveal_strlit("int8_bfloat16");
    reveal_strlit("int16");
    assert("default"@[0] == 'd' && "auto"@[0] == 'a' && "float32"@[5] == '3');
    assert("float16"@[5] == '1' && "int8"@[3] == '8' && "int8_float32"@[10] == '3');
    assert("int8_float16"@[10] == '1' && "int16"@[3] == '1' && "auto"@[1] == 'u');
    assert("fp32"@[2] == '3' && "fp16"@[2] == '1' && "bf16"@[0] == 'b' && "fp32"@[0] == 'f');
    assert("float32"@[0] == 'f' && "float16"@[0] == 'f' && "int8"@[0] == 'i');
    assert("int8_float32"@.len() == 12 && "int8_float16"@.len() == 12);
    assert("int8_bfloat16"@.len() == 13 && "bfloat16"@.len() == 8 && "default"@.len() == 7);
    assert("int8"@.len() == 4 && "int16"@.len() == 5 && "auto"@.len() == 4);
    assert("float32"@.len() == 7 && "float16"@.len() == 7 && "fp32"@.len() == 4);
    assert("fp16"@.len() == 4 && "bf16"@.len() == 4);
}

/// Left to choose, the library takes CUDA exactly where it is built in and
/// a device is visible. Asked for the CPU, it takes the CPU. Asked for
/// CUDA, it takes CUDA or refuses, and never falls back.
pub proof fn law_devices_are_chosen_as_asked(name: Seq<char>, cuda: CudaSupport)
    ensures
        ({
            let usable = cuda.supported && cuda.devices > 0;
            &&& usable ==> resolved(None, cuda) == Ok::<_, NativeErrorView>(Device::CUDA)
            &&& !usable ==> resolved(None, cuda) == Ok::<_, NativeErrorView>(Device::CPU)
            &&& lower_of(name) == "auto"@ ==> resolved(Some(name), cuda) == resolved(None, cuda)
            &&& lower_of(name) == "cpu"@ ==> resolved(Some(name), cuda) == Ok::<
                _,
                NativeErrorView,
            >(Device::CPU)
            &&& lower_of(name) == "cuda"@ || lower_of(name) == "gpu"@ ==> match resolved(
                Some(name),
                cuda,
            ) {
                Ok(device) => usable && device == Device::CUDA,
                Err(e) => !usable && e.reason == "invalid_request"@ && (
                e.details.dom().contains("rebuild_with"@) <==> !cuda.supported) && e.message
                    == if cuda.supported {
                    "no CUDA devices visible to CTranslate2"@
                } else {
                    "this build of whisper_ct2 was not compiled with CUDA support"@
                },
            }
            &&& lower_of(name) != "auto"@ && lower_of(name) != "cpu"@ && lower_of(name) != "cuda"@
                && lower_of(name) != "gpu"@ ==> resolved(Some(name), cuda) is Err
        }),
{
    reveal_strlit("cpu");
    reveal_strlit("cuda");
    reveal_strlit("gpu");
    reveal_strlit("auto");
    assert("cpu"@.len() == 3 && "cuda"@.len() == 4 && "gpu"@[0] == 'g' && "cpu"@[0] == 'c');
    assert("auto"@[0] == 'a' && "cuda"@[0] == 'c' && "auto"@.len() == 4);
    law_device_names(name);
    assert(lower_of(lower_of(name)) =~= lower_of(name));
}

/// What a caller sets of the loading of a model is what the engine gets,
/// whatever the value is, and what a caller leaves open stays as it is: the
/// first device, as many threads as the engine likes, and the engine's own
/// queue.
pub proof fn law_load_options_are_kept(
    path: Seq<char>,
    path_is_dir: bool,
    opts: LoadOpts,
    cuda: CudaSupport,
    defaults: QueueSettings,
)
    ensures
        planned(path, path_is_dir, opts, cuda, defaults) matches Ok(plan) ==> {
            &&& path_is_dir
            &&& resolved(optional_text(opts.device), cuda) == Ok::<_, NativeErrorView>(plan.device)
            &&& opts.compute_type is None ==> plan.compute_type == ComputeType::DEFAULT
            &&& opts.compute_type matches Some(name) ==> compute_type_of(name@) == Ok::<
                _,
                NativeErrorView,
            >(plan.compute_type)
            &&& opts.device_indices matches Some(list) ==> plan.device_indices == list@
                && list@.len() > 0
            &&& opts.device_indices is None ==> plan.device_indices == seq![0i32]
            &&& opts.num_threads_per_replica matches Some(v) ==> plan.num_threads_per_replica == v
            &&& opts.num_threads_per_replica is None ==> plan.num_threads_per_replica == 0
            &&& opts.max_queued_batches matches Some(v) ==> plan.queue.max_queued_batches == v
            &&& opts.max_queued_batches is None ==> plan.queue.max_queued_batches
                == defaults.max_queued_batches
            &&& opts.cpu_core_offset matches Some(v) ==> plan.queue.cpu_core_offset == v
            &&& opts.cpu_core_offset is None ==> plan.queue.cpu_core_offset
                == defaults.cpu_core_offset
        },
        planned(path, path_is_dir, opts, cuda, defaults) is Ok <==> {
            &&& path_is_dir
            &&& resolved(optional_text(opts.device), cuda) is Ok
            &&& opts.compute_type matches Some(name) ==> compute_type_of(name@) is Ok
            &&& opts.device_indices matches Some(list) ==> list@.len() > 0
        },
        planned(path, path_is_dir, opts, cuda, defaults) matches Err(e) ==> e.reason
            == "invalid_request"@,
{
    if let Some(name) = opts.device {
        law_device_names(lower_of(name@));
    }
}

/// A build without CUDA reports no CUDA device, whatever is there, and one
/// with it reports what is there.
pub proof fn law_available_devices(cpu: i32, cuda: CudaSupport, r: AvailableDevices)
    requires
        call_ensures(available_devices, (cpu, cuda), r),
    ensures
        r.cpu == cpu,
        r.cuda_supported == cuda.supported,
        cuda.supported ==> r.cuda == cuda.devices,
        !cuda.supported ==> r.cuda == 0,
{
}

/// The report of a model that failed to load says why, where it was, and
/// what it was to run on.
pub proof fn law_failed_loads_are_reported(
    reason: String,
    path: &str,
    device: Device,
    compute_type: ComputeType,
    r: NativeError,
)
    requires
        call_ensures(load_failed, (reason, path, device, compute_type), r),
    ensures
        r@.reason == "load_error"@,
        r@.details["reason"@] == reason@,
        r@.details["path"@] == path@,
        device_of(r@.details["device"@]) == Ok::<_, NativeErrorView>(device),
        compute_type_of(r@.details["compute_type"@]) == Ok::<_, NativeErrorView>(compute_type),
{
    reveal_strlit("reason");
    reveal_strlit("path");
    reveal_strlit("device");
    reveal_strlit("compute_type");
    assert("reason"@[0] == 'r' && "path"@[0] == 'p');
    assert("device"@[0] == 'd' && "compute_type"@[0] == 'c');
    law_device_label_round_trip(device);
    law_compute_type_label_round_trip(compute_type);
}

/// The visible CUDA devices are counted only where it matters: where the
/// choice depends on them, it is another one with a device than without.
pub proof fn law_cuda_is_counted_only_if_it_matters(requested: Option<Seq<char>>)
    ensures
        depends_on_cuda(requested) <==> resolved(
            requested,
            CudaSupport { supported: true, devices: 0 },
        ) != resolved(requested, CudaSupport { supported: true, devices: 1 }),
{
    reveal_strlit("auto");
    reveal_strlit("cpu");
    reveal_strlit("cuda");
    reveal_strlit("gpu");
}

/// The first thing that is wrong with a request to load a model is what is
/// reported: the path, then the device, then the compute type, then the
/// device indices.
pub proof fn law_first_fault_is_reported(
    path: Seq<char>,
    path_is_dir: bool,
    opts: LoadOpts,
    cuda: CudaSupport,
    defaults: QueueSettings,
)
    ensures
        !path_is_dir ==> planned(path, path_is_dir, opts, cuda, defaults) == Err::<
            LoadPlanView,
            _,
        >(native("invalid_request"@, "model path is not a directory"@).with("path"@, path)),
        path_is_dir ==> match resolved(optional_text(opts.device), cuda) {
            Err(e) => planned(path, path_is_dir, opts, cuda, defaults) == Err::<LoadPlanView, _>(
                e,
            ),
            Ok(_) => match (opts.compute_type, opts.device_indices) {
                (Some(name), indices) => match compute_type_of(name@) {
                    Err(e) => planned(path, path_is_dir, opts, cuda, defaults) == Err::<
                        LoadPlanView,
                        _,
                    >(e),
                    Ok(_) => indices matches Some(list) ==> list@.len() == 0 ==> planned(
                        path,
                        path_is_dir,
                        opts,
                        cuda,
                        defaults,
                    ) == Err::<LoadPlanView, _>(
                        native("invalid_request"@, "device_indices must be non-empty"@),
                    ),
                },
                (None, Some(list)) => list@.len() == 0 ==> planned(
                    path,
                    path_is_dir,
                    opts,
                    cuda,
                    defaults,
                ) == Err::<LoadPlanView, _>(
                    native("invalid_request"@, "device_indices must be non-empty"@),
                ),
                (None, None) => true,
            },
        },
{
}

} // verus!
