//! Settings of a runner, checked before it is built.
//!
//! Missing settings fail closed: a runner without a profile, an ambient, a
//! source cap, limits, features or a host surface is not built.
use vstd::prelude::*;
use vstd::string::*;

verus! {

/// Where clock, cancellation and seed come from.
#[derive(Clone, Copy, Debug, PartialEq, Eq, Structural)]
pub enum AmbientMode {
    Production,
    /// Anything for tests and replays.
    Other,
}

/// Limits of one request.
#[derive(Clone, Copy, Debug, PartialEq, Eq, Structural)]
pub struct Limits {
    pub gas: Option<u64>,
    pub max_memory_bytes: Option<u64>,
}

/// Compatibility features of one invocation.
#[derive(Clone, Copy, Debug, PartialEq, Eq, Structural)]
pub struct ExecutionFeatures {
    pub fenv: bool,
    pub harness_mode: bool,
}

/// Why a runner is not built.
#[derive(Debug)]
pub enum ConfigError {
    ConflictingSurfaceConfiguration,
    MissingProfile,
    MissingAmbient,
    NonProductionAmbient,
    MissingSourceCap,
    ZeroSourceCap,
    MissingGasLimit,
    ZeroGasLimit,
    MissingMemoryLimit,
    ZeroMemoryLimit,
    MissingFeatures,
    UnsupportedFeature,
    MissingHostEnvironment,
    ZeroLaneCount,
    /// The profile does not go with the features; why.
    IncompatibleFeatures(String),
    /// The surface cannot be made of its parts; why.
    InvalidSurface(String),
}

/// Model of a [`ConfigError`].
pub enum ConfigFault {
    ConflictingSurfaceConfiguration,
    MissingProfile,
    MissingAmbient,
    NonProductionAmbient,
    MissingSourceCap,
    ZeroSourceCap,
    MissingGasLimit,
    ZeroGasLimit,
    MissingMemoryLimit,
    ZeroMemoryLimit,
    MissingFeatures,
    UnsupportedFeature,
    MissingHostEnvironment,
    ZeroLaneCount,
    IncompatibleFeatures(Seq<char>),
    InvalidSurface(Seq<char>),
}

impl ConfigError {
    pub open spec fn view(&self) -> ConfigFault {
        match self {
            ConfigError::ConflictingSurfaceConfiguration =>
                ConfigFault::ConflictingSurfaceConfiguration,
            ConfigError::MissingProfile => ConfigFault::MissingProfile,
            ConfigError::MissingAmbient => ConfigFault::MissingAmbient,
            ConfigError::NonProductionAmbient => ConfigFault::NonProductionAmbient,
            ConfigError::MissingSourceCap => ConfigFault::MissingSourceCap,
            ConfigError::ZeroSourceCap => ConfigFault::ZeroSourceCap,
            ConfigError::MissingGasLimit => ConfigFault::MissingGasLimit,
            ConfigError::ZeroGasLimit => ConfigFault::ZeroGasLimit,
            ConfigError::MissingMemoryLimit => ConfigFault::MissingMemoryLimit,
            ConfigError::ZeroMemoryLimit => ConfigFault::ZeroMemoryLimit,
            ConfigError::MissingFeatures => ConfigFault::MissingFeatures,
            ConfigError::UnsupportedFeature => ConfigFault::UnsupportedFeature,
            ConfigError::MissingHostEnvironment => ConfigFault::MissingHostEnvironment,
            ConfigError::ZeroLaneCount => ConfigFault::ZeroLaneCount,
            ConfigError::IncompatibleFeatures(why) => ConfigFault::IncompatibleFeatures(why@),
            ConfigError::InvalidSurface(why) => ConfigFault::InvalidSurface(why@),
        }
    }
}

/// Builder for a runner. Parts that live outside are held by number.
#[derive(Debug)]
pub struct Builder {
    /// A surface that was validated before.
    pub prebuilt: Option<u64>,
    pub vm_profile: Option<u64>,
    pub mode: Option<AmbientMode>,
    pub base_limits: Option<Limits>,
    pub switches: Option<ExecutionFeatures>,
    pub source_cap: Option<usize>,
    /// The registered host modules; `None` where nothing was said.
    pub modules: Option<Vec<u64>>,
    pub source: Option<u64>,
    pub compiler: Option<u64>,
    pub front_door: Option<u64>,
    pub ingress: Option<u64>,
    pub aggregate: Option<u64>,
    pub lanes: Option<usize>,
    pub admission: Option<u64>,
    pub checks: Option<usize>,
}

/// Limits on what is let in.
#[derive(Clone, Copy, Debug, PartialEq, Eq, Structural)]
pub enum AdmissionChoice {
    /// Limits that were set.
    Given(u64),
    /// Finite limits made of the number of lanes.
    FailClosed(usize),
}

/// The host surface of a runner.
#[derive(Debug)]
pub enum SurfaceChoice {
    /// A surface that was validated before.
    Prebuilt(u64),
    /// A surface of a profile, host modules and a source of modules. Where no
    /// modules were named there are none.
    Parts { profile: u64, modules: Option<Vec<u64>>, source: Option<u64> },
}

/// What a runner is built with. Where limits or options are `None`, the
/// defaults of their kind hold.
#[derive(Debug)]
pub struct RunnerSettings {
    pub surface: SurfaceChoice,
    pub limits: Limits,
    pub features: ExecutionFeatures,
    pub max_source_bytes: usize,
    pub compiler: Option<u64>,
    pub front_door: Option<u64>,
    pub ingress: AdmissionChoice,
    pub aggregate: Option<u64>,
    pub lane_count: usize,
    pub admission: AdmissionChoice,
    pub front_door_concurrency: usize,
}

/// Limits that were set, else those of the number of lanes.
pub open spec fn admitted(given: Option<u64>, lanes: usize) -> AdmissionChoice {
    match given {
        Some(limits) => AdmissionChoice::Given(limits),
        None => AdmissionChoice::FailClosed(lanes),
    }
}

/// Picks limits that were set, else those of the number of lanes.
fn pick_admission(given: Option<u64>, lanes: usize) -> (r: AdmissionChoice)
    ensures
        r == admitted(given, lanes),
{
    match given {
        Some(limits) => AdmissionChoice::Given(limits),
        None => AdmissionChoice::FailClosed(lanes),
    }
}

/// The settings as far as they were given, before anything is checked.
pub open spec fn settings_of(b: Builder, default_checks: usize) -> RunnerSettings {
    let checks = match b.checks {
        Some(n) => n,
        None => default_checks,
    };
    let lanes = match b.lanes {
        Some(n) => n,
        None => 1,
    };
    RunnerSettings {
        surface: match b.prebuilt {
            Some(surface) => SurfaceChoice::Prebuilt(surface),
            None => SurfaceChoice::Parts {
                profile: b.vm_profile->0,
                modules: b.modules,
                source: b.source,
            },
        },
        limits: match b.base_limits {
            Some(l) => l,
            None => Limits { gas: None, max_memory_bytes: None },
        },
        features: b.switches->0,
        max_source_bytes: b.source_cap->0,
        compiler: b.compiler,
        front_door: b.front_door,
        ingress: admitted(b.ingress, lanes),
        aggregate: b.aggregate,
        lane_count: lanes,
        admission: admitted(b.admission, lanes),
        front_door_concurrency: if checks < 1 {
            1
        } else {
            checks
        },
    }
}

/// The first fault of some settings, in the order in which they are looked at.
pub open spec fn first_fault(
    b: Builder,
    features_fit: Result<(), Seq<char>>,
    surface_fit: Result<(), Seq<char>>,
) -> Option<ConfigFault> {
    let limits = settings_of(b, 0).limits;
    if b.prebuilt is Some && (b.vm_profile is Some || b.modules is Some || b.source is Some) {
        Some(ConfigFault::ConflictingSurfaceConfiguration)
    } else if b.prebuilt is None && b.vm_profile is None {
        Some(ConfigFault::MissingProfile)
    } else if b.mode is None {
        Some(ConfigFault::MissingAmbient)
    } else if b.mode != Some(AmbientMode::Production) {
        Some(ConfigFault::NonProductionAmbient)
    } else if b.source_cap is None {
        Some(ConfigFault::MissingSourceCap)
    } else if b.source_cap == Some(0usize) {
        Some(ConfigFault::ZeroSourceCap)
    } else if limits.gas is None {
        Some(ConfigFault::MissingGasLimit)
    } else if limits.gas == Some(0u64) {
        Some(ConfigFault::ZeroGasLimit)
    } else if limits.max_memory_bytes is None {
        Some(ConfigFault::MissingMemoryLimit)
    } else if limits.max_memory_bytes == Some(0u64) {
        Some(ConfigFault::ZeroMemoryLimit)
    } else if b.switches is None {
        Some(ConfigFault::MissingFeatures)
    } else if features_fit is Err {
        Some(ConfigFault::IncompatibleFeatures(features_fit->Err_0))
    } else if b.switches->0.fenv || b.switches->0.harness_mode {
        Some(ConfigFault::UnsupportedFeature)
    } else if b.prebuilt is None && b.modules is None && b.source is None {
        Some(ConfigFault::MissingHostEnvironment)
    } else if b.prebuilt is None && surface_fit is Err {
        Some(ConfigFault::InvalidSurface(surface_fit->Err_0))
    } else if b.lanes == Some(0usize) {
        Some(ConfigFault::ZeroLaneCount)
    } else {
        None
    }
}

/// An outside verdict by its model.
pub open spec fn verdict(fit: Result<(), String>) -> Result<(), Seq<char>> {
    match fit {
        Ok(_) => Ok(()),
        Err(why) => Err(why@),
    }
}

/// The registered host modules.
pub open spec fn registered(modules: Option<Vec<u64>>) -> Seq<u64> {
    match modules {
        Some(list) => list@,
        None => Seq::empty(),
    }
}

impl Default for Builder {
    fn default() -> (r: Self)
        ensures
            r == (Builder {
                prebuilt: None,
                vm_profile: None,
                mode: None,
                base_limits: None,
                switches: None,
                source_cap: None,
                modules: None,
                source: None,
                compiler: None,
                front_door: None,
                ingress: None,
                aggregate: None,
                lanes: None,
                admission: None,
                checks: None,
            }),
    {
        Builder {
            prebuilt: None,
            vm_profile: None,
            mode: None,
            base_limits: None,
            switches: None,
            source_cap: None,
            modules: None,
            source: None,
            compiler: None,
            front_door: None,
            ingress: None,
            aggregate: None,
            lanes: None,
            admission: None,
            checks: None,
        }
    }
}

impl Builder {
    /// Selects an already validated capability surface.
    pub fn surface(self, surface: u64) -> (r: Self)
        ensures
            r == (Builder { prebuilt: Some(surface), ..self }),
    {
        Builder { prebuilt: Some(surface), ..self }
    }

    /// Selects the VM profile.
    pub fn profile(self, profile: u64) -> (r: Self)
        ensures
            r == (Builder { vm_profile: Some(profile), ..self }),
    {
        Builder { vm_profile: Some(profile), ..self }
    }

    /// Selects the clock, cancellation, and seed source.
    pub fn ambient(self, mode: AmbientMode) -> (r: Self)
        ensures
            r == (Builder { mode: Some(mode), ..self }),
    {
        Builder { mode: Some(mode), ..self }
    }

    /// Sets the base per-request limits. Gas and the memory cap are required.
    pub fn limits(self, limits: Limits) -> (r: Self)
        ensures
            r == (Builder { base_limits: Some(limits), ..self }),
    {
        Builder { base_limits: Some(limits), ..self }
    }

    /// Sets per-invocation compatibility features.
    pub fn features(self, features: ExecutionFeatures) -> (r: Self)
        ensures
            r == (Builder { switches: Some(features), ..self }),
    {
        Builder { switches: Some(features), ..self }
    }

    /// Sets the source byte cap.
    pub fn max_source_bytes(self, bytes: usize) -> (r: Self)
        ensures
            r == (Builder { source_cap: Some(bytes), ..self }),
    {
        Builder { source_cap: Some(bytes), ..self }
    }

    /// Sets how many worker lanes run VM-owned request work.
    pub fn lane_count(self, lanes: usize) -> (r: Self)
        ensures
            r == (Builder { lanes: Some(lanes), ..self }),
    {
        Builder { lanes: Some(lanes), ..self }
    }

    /// Sets pre-VM work limits such as diagnostic-output caps.
    pub fn front_door_limits(self, limits: u64) -> (r: Self)
        ensures
            r == (Builder { front_door: Some(limits), ..self }),
    {
        Builder { front_door: Some(limits), ..self }
    }

    /// Sets request caps checked before parser, checker and compiler start.
    pub fn ingress_limits(self, limits: u64) -> (r: Self)
        ensures
            r == (Builder { ingress: Some(limits), ..self }),
    {
        Builder { ingress: Some(limits), ..self }
    }

    /// Sets aggregate resource caps of a tenant across requests.
    pub fn aggregate_resource_limits(self, limits: u64) -> (r: Self)
        ensures
            r == (Builder { aggregate: Some(limits), ..self }),
    {
        Builder { aggregate: Some(limits), ..self }
    }

    /// Sets lane-pool admission limits checked before a VM runs.
    pub fn lane_admission_limits(self, limits: u64) -> (r: Self)
        ensures
            r == (Builder { admission: Some(limits), ..self }),
    {
        Builder { admission: Some(limits), ..self }
    }

    /// Overrides the compiler options.
    pub fn compile_options(self, options: u64) -> (r: Self)
        ensures
            r == (Builder { compiler: Some(options), ..self }),
    {
        Builder { compiler: Some(options), ..self }
    }

    /// Registers an audited host module, available to every request.
    pub fn module(self, module: u64) -> (r: Self)
        ensures
            r == (Builder { modules: r.modules, ..self }),
            r.modules is Some,
            r.modules->0@ == registered(self.modules).push(module),
    {
        let mut modules: Vec<u64> = match self.modules {
            Some(modules) => modules,
            None => Vec::new(),
        };
        modules.push(module);
        Builder { modules: Some(modules), ..self }
    }

    /// Grants runtime `require` through the supplied module source.
    pub fn module_source(self, source: u64) -> (r: Self)
        ensures
            r == (Builder { source: Some(source), ..self }),
    {
        Builder { source: Some(source), ..self }
    }

    /// Selects an explicit empty host environment, unless modules are
    /// registered.
    pub fn no_host_modules(self) -> (r: Self)
        ensures
            r == (Builder { modules: r.modules, ..self }),
            r.modules is Some,
            r.modules->0@ == registered(self.modules),
    {
        let modules: Vec<u64> = match self.modules {
            Some(modules) => modules,
            None => Vec::new(),
        };
        Builder { modules: Some(modules), ..self }
    }

    /// Caps how many type-check stages may run concurrently (minimum 1).
    pub fn max_concurrent_type_checks(self, checks: usize) -> (r: Self)
        ensures
            r == (Builder { checks: Some(checks), ..self }),
    {
        Builder { checks: Some(checks), ..self }
    }

    /// Checks the settings of a runner. `features_fit` says whether the profile
    /// goes with the features, `surface_fit` whether the host modules make a
    /// surface, and `default_checks` how many type checks run at once where
    /// nothing was said.
    pub fn build(
        self,
        features_fit: Result<(), String>,
        surface_fit: Result<(), String>,
        default_checks: usize,
    ) -> (r: Result<RunnerSettings, ConfigError>)
        ensures
            match r {
                Ok(settings) => first_fault(self, verdict(features_fit), verdict(surface_fit))
                    is None && settings == settings_of(self, default_checks),
                Err(e) => first_fault(self, verdict(features_fit), verdict(surface_fit)) == Some(
                    e@,
                ),
            },
    {
        if self.prebuilt.is_some() {
            if self.vm_profile.is_some() || self.modules.is_some() || self.source.is_some() {
                return Err(ConfigError::ConflictingSurfaceConfiguration);
            }
        } else if self.vm_profile.is_none() {
            return Err(ConfigError::MissingProfile);
        }
        match self.mode {
            None => {
                return Err(ConfigError::MissingAmbient);
            },
            Some(AmbientMode::Production) => {},
            Some(AmbientMode::Other) => {
                return Err(ConfigError::NonProductionAmbient);
            },
        }
        let max_source_bytes: usize = match self.source_cap {
            None => {
                return Err(ConfigError::MissingSourceCap);
            },
            Some(bytes) => bytes,
        };
        if max_source_bytes == 0 {
            return Err(ConfigError::ZeroSourceCap);
        }
        let limits = match self.base_limits {
            Some(limits) => limits,
            None => Limits { gas: None, max_memory_bytes: None },
        };
        match limits.gas {
            None => {
                return Err(ConfigError::MissingGasLimit);
            },
            Some(gas) => {
                if gas == 0 {
                    return Err(ConfigError::ZeroGasLimit);
                }
            },
        }
        match limits.max_memory_bytes {
            None => {
                return Err(ConfigError::MissingMemoryLimit);
            },
            Some(bytes) => {
                if bytes == 0 {
                    return Err(ConfigError::ZeroMemoryLimit);
                }
            },
        }
        let features = match self.switches {
            None => {
                return Err(ConfigError::MissingFeatures);
            },
            Some(features) => features,
        };
        match features_fit {
            Ok(_) => {},
            Err(why) => {
                return Err(ConfigError::IncompatibleFeatures(why));
            },
        }
        if features.fenv || features.harness_mode {
            return Err(ConfigError::UnsupportedFeature);
        }
        if self.prebuilt.is_none() {
            if self.modules.is_none() && self.source.is_none() {
                return Err(ConfigError::MissingHostEnvironment);
            }
            match surface_fit {
                Ok(_) => {},
                Err(why) => {
                    return Err(ConfigError::InvalidSurface(why));
                },
            }
        }
        let lane_count: usize = match self.lanes {
            Some(n) => n,
            None => 1,
        };
        if lane_count == 0 {
            return Err(ConfigError::ZeroLaneCount);
        }
        let checks: usize = match self.checks {
            Some(n) => n,
            None => default_checks,
        };
        let front_door_concurrency: usize = if checks < 1 {
            1
        } else {
            checks
        };
        let ingress = pick_admission(self.ingress, lane_count);
        let admission = pick_admission(self.admission, lane_count);
        let surface = match (self.prebuilt, self.vm_profile) {
            (Some(surface), _) => SurfaceChoice::Prebuilt(surface),
            (None, Some(profile)) => SurfaceChoice::Parts {
                profile,
                modules: self.modules,
                source: self.source,
            },
            (None, None) => {
                return Err(ConfigError::MissingProfile);
            },
        };
        Ok(
            RunnerSettings {
                surface,
                limits,
                features,
                max_source_bytes,
                compiler: self.compiler,
                front_door: self.front_door,
                ingress,
                aggregate: self.aggregate,
                lane_count,
                admission,
                front_door_concurrency,
            },
        )
    }
}

/// A runner that is built has finite limits that are not zero, at least one
/// lane and at least one type check at a time.
pub proof fn law_built_runner_is_bounded(
    b: Builder,
    features_fit: Result<(), Seq<char>>,
    surface_fit: Result<(), Seq<char>>,
    default_checks: usize,
)
    requires
        first_fault(b, features_fit, surface_fit) is None,
    ensures
        ({
            let s = settings_of(b, default_checks);
            &&& s.limits.gas matches Some(gas) && gas > 0
            &&& s.limits.max_memory_bytes matches Some(bytes) && bytes > 0
            &&& s.max_source_bytes > 0
            &&& s.lane_count > 0
            &&& s.front_door_concurrency > 0
            &&& !s.features.fenv && !s.features.harness_mode
        }),
{
}

/// A runner is built with what was given: each limit, option and number that
/// was set is the one that holds, and admission limits that were not set are
/// those of the number of lanes.
pub proof fn law_given_settings_hold(b: Builder, default_checks: usize, n: usize, limits: u64)
    ensures
        b.lanes == Some(n) ==> settings_of(b, default_checks).lane_count == n,
        b.lanes is None ==> settings_of(b, default_checks).lane_count == 1,
        b.ingress == Some(limits) ==> settings_of(b, default_checks).ingress
            == AdmissionChoice::Given(limits),
        b.ingress is None ==> settings_of(b, default_checks).ingress
            == AdmissionChoice::FailClosed(settings_of(b, default_checks).lane_count),
        b.admission == Some(limits) ==> settings_of(b, default_checks).admission
            == AdmissionChoice::Given(limits),
        b.admission is None ==> settings_of(b, default_checks).admission
            == AdmissionChoice::FailClosed(settings_of(b, default_checks).lane_count),
        b.checks == Some(n) && n > 0 ==> settings_of(b, default_checks).front_door_concurrency == n,
        b.checks is None && default_checks > 0 ==> settings_of(
            b,
            default_checks,
        ).front_door_concurrency == default_checks,
        b.source_cap == Some(n) ==> settings_of(b, default_checks).max_source_bytes == n,
        b.base_limits matches Some(l) ==> settings_of(b, default_checks).limits == l,
        b.switches matches Some(f) ==> settings_of(b, default_checks).features == f,
        b.prebuilt matches Some(s) ==> settings_of(b, default_checks).surface
            == SurfaceChoice::Prebuilt(s),
        settings_of(b, default_checks).compiler == b.compiler,
        settings_of(b, default_checks).front_door == b.front_door,
        settings_of(b, default_checks).aggregate == b.aggregate,
{
}

/// Settings that name everything that a runner needs, within bounds and with
/// parts that fit, have no fault.
pub proof fn law_complete_settings_have_no_fault(
    b: Builder,
    features_fit: Result<(), Seq<char>>,
    surface_fit: Result<(), Seq<char>>,
)
    requires
        b.prebuilt is Some && b.vm_profile is None && b.modules is None && b.source is None
            || b.prebuilt is None && b.vm_profile is Some && (b.modules is Some || b.source is Some)
            && surface_fit is Ok,
        b.mode == Some(AmbientMode::Production),
        b.source_cap matches Some(cap) && cap > 0,
        b.base_limits matches Some(l) && (l.gas matches Some(gas) && gas > 0) && (
        l.max_memory_bytes matches Some(bytes) && bytes > 0),
        b.switches matches Some(f) && !f.fenv && !f.harness_mode,
        features_fit is Ok,
        b.lanes != Some(0usize),
    ensures
        first_fault(b, features_fit, surface_fit) is None,
{
}

} // verus!
