use vstd::prelude::*;
use vstd::string::StringExecFns;
use named_sem::NamedSemaphore;

verus! {

#[verifier::external_type_specification]
#[verifier::external_body]
pub struct ExNamedSemaphore(named_sem::NamedSemaphore);

#[verifier::external_type_specification]
#[verifier::external_body]
pub struct ExSemaphoreError(named_sem::Error);

/// The platforms whose semaphore namespaces the queue knows: Windows, and
/// the systems with POSIX named semaphores.
#[derive(Clone, Copy, Debug, PartialEq, Eq, Structural)]
pub enum Platform {
    Windows,
    Linux,
}

/// The platform that separates path components with `separator`: Windows
/// uses a backslash, the systems with POSIX named semaphores a slash.
pub open spec fn platform_of_separator(separator: char) -> Platform {
    if separator == '\\' {
        Platform::Windows
    } else {
        Platform::Linux
    }
}

pub fn platform_for_separator(separator: char) -> (r: Platform)
    ensures
        r == platform_of_separator(separator),
{
    if separator == '\\' {
        Platform::Windows
    } else {
        Platform::Linux
    }
}

/// The prefix that puts the queue's semaphores in the system-wide namespace
/// of `platform`.
pub open spec fn sem_name_prefix_spec(platform: Platform) -> Seq<char> {
    match platform {
        Platform::Windows => "Global\\CT.IP."@,
        Platform::Linux => "/ct.ip."@,
    }
}

pub fn sem_name_prefix(platform: Platform) -> (r: &'static str)
    ensures
        r@ == sem_name_prefix_spec(platform),
{
    match platform {
        Platform::Windows => "Global\\CT.IP.",
        Platform::Linux => "/ct.ip.",
    }
}

/// The system-wide name of the semaphore that belongs to `name`.
pub fn sem_name(platform: Platform, name: &str) -> (r: String)
    ensures
        r@ == sem_name_prefix_spec(platform) + name@,
{
    let mut full = sem_name_prefix(platform).to_owned();
    full.append(name);
    full
}

/// What the queue asks of the system for the semaphore of a queue: its
/// system-wide name, its initial count and its maximum count.
pub struct SemaphoreRequest {
    pub name: String,
    pub initial_value: u32,
    pub max_value: u32,
}

/// The request for the semaphore of the queue `name` on `platform`: the
/// platform's prefix followed by `name`, an initial count of 0 and a maximum
/// of `i32::MAX`.
pub fn sem_request(platform: Platform, name: &str) -> (r: SemaphoreRequest)
    ensures
        r.name@ == sem_name_prefix_spec(platform) + name@,
        r.initial_value == 0,
        r.max_value == i32::MAX,
{
    SemaphoreRequest { name: sem_name(platform, name), initial_value: 0, max_value: i32::MAX as u32 }
}

/// A call the queue made on its semaphore: a post, or a wait of at most the
/// given milliseconds.
#[derive(Clone, Copy, Debug, PartialEq, Eq, Structural)]
pub enum SignalCall {
    Post,
    Wait(u64),
}

/// The semaphore that wakes a queue's readers, with the request it was
/// created by and the calls made on it since, whatever the system answered
/// to each.
pub struct QueueSignal {
    semaphore: NamedSemaphore,
    name: String,
    initial_value: u32,
    max_value: u32,
    calls: Ghost<Seq<SignalCall>>,
}

impl QueueSignal {
    /// The system-wide name the semaphore was created or opened under.
    pub closed spec fn name(&self) -> Seq<char> {
        self.name@
    }

    pub closed spec fn initial_value(&self) -> u32 {
        self.initial_value
    }

    pub closed spec fn max_value(&self) -> u32 {
        self.max_value
    }

    /// The calls made on the semaphore through this value, oldest first.
    pub closed spec fn calls(&self) -> Seq<SignalCall> {
        self.calls@
    }

    /// Whether `other` is the semaphore of `self`, from the same request.
    pub open spec fn same_semaphore(&self, other: &QueueSignal) -> bool {
        &&& other.name() == self.name()
        &&& other.initial_value() == self.initial_value()
        &&& other.max_value() == self.max_value()
    }
}

/// Creates, or opens if it already exists, the named semaphore that
/// `request` describes, through `NamedSemaphore::create_with_max`. Whether the
/// system grants it depends on the system; the semaphore it grants carries
/// the request and no calls yet.
#[verifier::external_body]
fn open_semaphore(request: SemaphoreRequest) -> (r: Result<QueueSignal, named_sem::Error>)
    ensures
        r matches Ok(signal) ==> {
            &&& signal.name() == request.name@
            &&& signal.initial_value() == request.initial_value
            &&& signal.max_value() == request.max_value
            &&& signal.calls() == Seq::<SignalCall>::empty()
        },
{
    let SemaphoreRequest { name, initial_value, max_value } = request;
    match NamedSemaphore::create_with_max(name.as_str(), initial_value, max_value) {
        Ok(semaphore) => Ok(QueueSignal { semaphore, name, initial_value, max_value, calls: Ghost(Seq::empty()) }),
        Err(error) => Err(error),
    }
}

/// Increases the count of the semaphore once, through `NamedSemaphore::post`.
/// The call is recorded whatever the system answers; `Ok` says the count
/// was increased.
#[verifier::external_body]
pub(crate) fn post_semaphore(signal: &mut QueueSignal) -> (r: Result<(), named_sem::Error>)
    ensures
        final(signal).calls() == old(signal).calls().push(SignalCall::Post),
        old(signal).same_semaphore(final(signal)),
{
    signal.semaphore.post()
}

/// Waits at most `millis` milliseconds for the count of the semaphore to be
/// positive and decreases it, through `NamedSemaphore::timed_wait`. The call
/// is recorded whatever the system and the other processes make of it.
#[verifier::external_body]
pub(crate) fn wait_semaphore(signal: &mut QueueSignal, millis: u64) -> (r: Result<
    (),
    named_sem::Error,
>)
    ensures
        final(signal).calls() == old(signal).calls().push(SignalCall::Wait(millis)),
        old(signal).same_semaphore(final(signal)),
{
    signal.semaphore.timed_wait(std::time::Duration::from_millis(millis))
}

/// The separator of path components on the host, `std::path::MAIN_SEPARATOR`.
/// It is fixed by the platform the crate is built for, so nothing is stated
/// of it here.
#[verifier::external_body]
fn host_path_separator() -> (r: char) {
    std::path::MAIN_SEPARATOR
}

/// The platform the crate runs on, as its path separator tells it
/// (`platform_for_separator`).
pub fn host_platform() -> (r: Platform) {
    platform_for_separator(host_path_separator())
}

/// Creates (or opens) the semaphore of the queue `name` on `platform`, as
/// `sem_request` asks for it. Whether the system grants it depends on the
/// system.
pub fn create_sem_on(platform: Platform, name: &str) -> (r: Result<QueueSignal, named_sem::Error>)
    ensures
        r matches Ok(signal) ==> {
            &&& signal.name() == sem_name_prefix_spec(platform) + name@
            &&& signal.initial_value() == 0
            &&& signal.max_value() == i32::MAX
            &&& signal.calls() == Seq::<SignalCall>::empty()
        },
{
    open_semaphore(sem_request(platform, name))
}

/// Creates (or opens) the semaphore of the queue `name` on the host
/// platform: the platform's prefix followed by `name`, an initial count of 0
/// and a maximum of `i32::MAX`.
pub fn create_sem(name: &str) -> (r: Result<QueueSignal, named_sem::Error>)
    ensures
        r matches Ok(signal) ==> {
            &&& exists|platform: Platform| signal.name() == sem_name_prefix_spec(platform) + name@
            &&& signal.initial_value() == 0
            &&& signal.max_value() == i32::MAX
            &&& signal.calls() == Seq::<SignalCall>::empty()
        },
{
    let platform = host_platform();
    create_sem_on(platform, name)
}

} // verus!
