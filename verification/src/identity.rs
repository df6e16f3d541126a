//! What identifies the contents of a file without reading them.

use crate::error::{own_error, own_io_error, IoError, IoErrorKind, IoErrorModel};
use crate::path::{same_place, FilePath};
use crate::views::{outcome_view, result_opt_view, result_view};
use std::collections::BTreeMap;
use vstd::prelude::*;

verus! {

// Times

/// A point in time: seconds since the epoch, and nanoseconds behind that second.
#[derive(Debug, Clone, Copy, PartialEq, Eq, Structural)]
pub struct FileTime {
    pub seconds: i64,
    pub nanos: u32,
}

impl FileTime {
    /// Whether this time lies before another one.
    pub open spec fn precedes(self, other: FileTime) -> bool {
        self.seconds < other.seconds || (self.seconds == other.seconds && self.nanos < other.nanos)
    }

    /// Whether this time lies before another one.
    pub fn is_before(self, other: FileTime) -> (before: bool)
        ensures
            before == self.precedes(other),
    {
        self.seconds < other.seconds || (self.seconds == other.seconds && self.nanos < other.nanos)
    }
}

pub const NANOS_PER_SECOND: u32 = 1_000_000_000;

/// The time that a kernel's seconds and nanoseconds name, if a [`FileTime`] can hold it.
pub open spec fn kernel_time(seconds: i64, nanos: u32) -> Result<FileTime, IoErrorModel> {
    let whole = seconds + nanos / NANOS_PER_SECOND;
    if whole > i64::MAX {
        Err(own_error(IoErrorKind::InvalidData, "file timestamp is out of range"@))
    } else {
        Ok(FileTime { seconds: whole as i64, nanos: nanos % NANOS_PER_SECOND })
    }
}

/// The time that a kernel's seconds and nanoseconds name.
pub fn system_time(seconds: i64, nanos: u32) -> (time: Result<FileTime, IoError>)
    ensures
        outcome_view(time) == kernel_time(seconds, nanos),
{
    let carried = (nanos / NANOS_PER_SECOND) as i64;
    match seconds.checked_add(carried) {
        Some(seconds) => Ok(FileTime { seconds, nanos: nanos % NANOS_PER_SECOND }),
        None => Err(own_io_error(IoErrorKind::InvalidData, "file timestamp is out of range")),
    }
}

// Metadata

/// What Unix systems report of a file besides its length and kind.
#[derive(Debug, Clone, Copy, PartialEq, Eq)]
pub struct UnixDetails {
    /// The device number.
    pub device: u64,
    /// The inode number.
    pub inode: u64,
    /// The modification time, in seconds and nanoseconds.
    pub modified: (i64, i64),
    /// The time of the last metadata change, in seconds and nanoseconds.
    pub changed: (i64, i64),
    /// The file mode.
    pub mode: u32,
}

/// What the platform reports of a file.
#[derive(Debug, Clone, Copy, PartialEq, Eq)]
pub enum PlatformDetails {
    /// On Linux.
    Linux(UnixDetails),
    /// On any other Unix.
    Unix(UnixDetails),
    /// Elsewhere, nothing. A creation time is not a change time: a rewrite does not move it.
    Other,
}

/// The metadata of a file.
#[derive(Debug)]
pub struct FileMetadata {
    /// Whether it is a regular file.
    pub is_file: bool,
    /// Whether it is a directory.
    pub is_dir: bool,
    /// The length in bytes.
    pub len: u64,
    /// The modification time, where the filesystem reports one.
    pub modified: Result<FileTime, IoError>,
    /// What else the platform reports.
    pub details: PlatformDetails,
}

/// What a [`FileMetadata`] says.
pub struct MetadataModel {
    pub is_file: bool,
    pub is_dir: bool,
    pub len: u64,
    pub modified: Result<FileTime, IoErrorModel>,
    pub details: PlatformDetails,
}

impl View for FileMetadata {
    type V = MetadataModel;

    open spec fn view(&self) -> MetadataModel {
        MetadataModel {
            is_file: self.is_file,
            is_dir: self.is_dir,
            len: self.len,
            modified: outcome_view(self.modified),
            details: self.details,
        }
    }
}

// Identities

/// The kernel identity of one file object on one mounted filesystem.
#[derive(Debug, Clone, Copy, PartialEq, Eq, PartialOrd, Ord, Structural)]
pub struct FileObjectIdentity {
    /// Device identifier's major or high-order component.
    pub device_major: u32,
    /// Device identifier's minor or low-order component.
    pub device_minor: u32,
    /// Mount identifier in this mount namespace, or zero when unavailable.
    pub mount_id: u64,
    /// Inode number within the mounted filesystem.
    pub inode: u64,
}

/// The on-disk identity a recorded file digest describes.
///
/// An overwrite moves the modification time and a
/// truncation changes the length, so a digest recorded against both stands
/// until either does. Where the platform reports a metadata-change time the
/// identity carries that too, and it is the part a writer cannot restore: a
/// rewrite that puts the modification time back still moves the change time,
/// so only filesystems without one fall back to the freshness model the
/// surrounding build tool already lives on.
#[derive(Debug, Clone)]
pub struct FileIdentity {
    /// Absolute path of the file.
    pub path: FilePath,
    /// Length of the file in bytes.
    pub len: u64,
    /// Modification time of the file.
    pub modified: FileTime,
    /// Platform metadata-change token, where one exists.
    pub changed: Option<(i64, i64)>,
    /// Stable object identity where the platform exposes one.
    pub object: Option<FileObjectIdentity>,
}

/// What a [`FileIdentity`] says.
#[verifier::ext_equal]
pub struct IdentityModel {
    pub path: Seq<u8>,
    pub len: u64,
    pub modified: FileTime,
    pub changed: Option<(i64, i64)>,
    pub object: Option<FileObjectIdentity>,
}

impl View for FileIdentity {
    type V = IdentityModel;

    open spec fn view(&self) -> IdentityModel {
        IdentityModel {
            path: self.path@,
            len: self.len,
            modified: self.modified,
            changed: self.changed,
            object: self.object,
        }
    }
}

/// Whether two identities are one: they name the same place and agree in everything else.
pub open spec fn same_identity(left: IdentityModel, right: IdentityModel) -> bool {
    &&& same_place(left.path, right.path)
    &&& left.len == right.len
    &&& left.modified == right.modified
    &&& left.changed == right.changed
    &&& left.object == right.object
}

/// Whether an optional identity is there and is this one.
pub open spec fn is_identity(found: Option<IdentityModel>, expected: IdentityModel) -> bool {
    found matches Some(found) && same_identity(found, expected)
}

fn same_token(left: Option<(i64, i64)>, right: Option<(i64, i64)>) -> (same: bool)
    ensures
        same == (left == right),
{
    match (left, right) {
        (None, None) => true,
        (Some(left), Some(right)) => left.0 == right.0 && left.1 == right.1,
        _ => false,
    }
}

fn same_object(
    left: Option<FileObjectIdentity>,
    right: Option<FileObjectIdentity>,
) -> (same: bool)
    ensures
        same == (left == right),
{
    match (left, right) {
        (None, None) => true,
        (Some(left), Some(right)) => left == right,
        _ => false,
    }
}

impl PartialEq for FileIdentity {
    fn eq(&self, other: &FileIdentity) -> (same: bool) {
        self.path.same_as(&other.path) && self.len == other.len && self.modified == other.modified
            && same_token(self.changed, other.changed) && same_object(self.object, other.object)
    }
}

impl vstd::std_specs::cmp::PartialEqSpecImpl for FileIdentity {
    open spec fn obeys_eq_spec() -> bool {
        true
    }

    open spec fn eq_spec(&self, other: &FileIdentity) -> bool {
        same_identity(self@, other@)
    }
}

impl Eq for FileIdentity {

}

// Device numbers

/// The major part of a Linux device number.
pub open spec fn linux_major(device: u64) -> u64 {
    ((device >> 8) & 0x0fff) | ((device >> 32) & 0xfffff000)
}

/// The minor part of a Linux device number.
pub open spec fn linux_minor(device: u64) -> u64 {
    (device & 0x00ff) | ((device >> 12) & 0xffffff00)
}

/// The parts of a Linux device number hold all of it: no two devices share both.
pub proof fn linux_device_parts_are_faithful(left: u64, right: u64)
    requires
        linux_major(left) == linux_major(right),
        linux_minor(left) == linux_minor(right),
    ensures
        left == right,
        linux_major(left) <= u32::MAX,
        linux_minor(left) <= u32::MAX,
{
    assert(((left >> 8) & 0x0fff) | ((left >> 32) & 0xfffff000) == ((right >> 8) & 0x0fff) | ((
    right >> 32) & 0xfffff000) && (left & 0x00ff) | ((left >> 12) & 0xffffff00) == (right & 0x00ff)
        | ((right >> 12) & 0xffffff00) ==> left == right) by (bit_vector);
    lemma_linux_parts_fit(left);
}

proof fn lemma_linux_parts_fit(device: u64)
    ensures
        linux_major(device) <= u32::MAX,
        linux_minor(device) <= u32::MAX,
{
    assert(((device >> 8) & 0x0fff) | ((device >> 32) & 0xfffff000) <= 0xffff_ffff) by (bit_vector);
    assert((device & 0x00ff) | ((device >> 12) & 0xffffff00) <= 0xffff_ffff) by (bit_vector);
}

/// The object that platform details identify, where they do.
pub open spec fn object_of(details: PlatformDetails) -> Option<FileObjectIdentity> {
    match details {
        PlatformDetails::Linux(unix) => Some(
            FileObjectIdentity {
                device_major: linux_major(unix.device) as u32,
                device_minor: linux_minor(unix.device) as u32,
                mount_id: 0,
                inode: unix.inode,
            },
        ),
        PlatformDetails::Unix(unix) => Some(
            FileObjectIdentity {
                device_major: (unix.device >> 32) as u32,
                device_minor: unix.device as u32,
                mount_id: 0,
                inode: unix.inode,
            },
        ),
        PlatformDetails::Other => None,
    }
}

/// The metadata-change time as an opaque token, where the platform has one.
pub open spec fn token_of(details: PlatformDetails) -> Option<(i64, i64)> {
    match details {
        PlatformDetails::Linux(unix) => Some(unix.changed),
        PlatformDetails::Unix(unix) => Some(unix.changed),
        PlatformDetails::Other => None,
    }
}

/// The object that platform details identify, where they do.
pub fn metadata_object_identity(details: PlatformDetails) -> (object: Option<FileObjectIdentity>)
    ensures
        object == object_of(details),
{
    match details {
        PlatformDetails::Linux(unix) => {
            let device = unix.device;
            let major: u64 = ((device >> 8) & 0x0fff) | ((device >> 32) & 0xfffff000);
            let minor: u64 = (device & 0x00ff) | ((device >> 12) & 0xffffff00);
            proof {
                lemma_linux_parts_fit(device);
            }
            Some(
                FileObjectIdentity {
                    device_major: major as u32,
                    device_minor: minor as u32,
                    mount_id: 0,
                    inode: unix.inode,
                },
            )
        },
        PlatformDetails::Unix(unix) => {
            let device = unix.device;
            let major: u64 = device >> 32;
            Some(
                FileObjectIdentity {
                    device_major: #[verifier::truncate] (major as u32),
                    device_minor: #[verifier::truncate] (device as u32),
                    mount_id: 0,
                    inode: unix.inode,
                },
            )
        },
        PlatformDetails::Other => None,
    }
}

/// The metadata-change time as an opaque token, where the platform has one.
pub fn change_token(details: PlatformDetails) -> (token: Option<(i64, i64)>)
    ensures
        token == token_of(details),
{
    match details {
        PlatformDetails::Linux(unix) => Some(unix.changed),
        PlatformDetails::Unix(unix) => Some(unix.changed),
        PlatformDetails::Other => None,
    }
}

/// Whether metadata belongs to an object. The mount is left out: metadata does not tell it.
pub open spec fn object_matches(details: PlatformDetails, object: FileObjectIdentity) -> bool {
    object_of(details) matches Some(found) && found.device_major == object.device_major
        && found.device_minor == object.device_minor && found.inode == object.inode
}

/// Compare the device and inode in `metadata` with a `statx` object identity.
/// `statx` also supplies a mount id, which is intentionally left to the path
/// check: an open file has no portable mount-id query, while the final path identity
/// still catches a replacement on another mount.
pub fn metadata_matches_object(metadata: &FileMetadata, object: &FileObjectIdentity) -> (same: bool)
    ensures
        same == object_matches(metadata@.details, *object),
{
    match metadata_object_identity(metadata.details) {
        Some(found) => found.device_major == object.device_major && found.device_minor
            == object.device_minor && found.inode == object.inode,
        None => false,
    }
}

// Describing files

/// What identifies a file with this metadata, where the filesystem reports a modification time.
pub open spec fn described(path: Seq<u8>, metadata: MetadataModel) -> Option<IdentityModel> {
    match metadata.modified {
        Ok(modified) => Some(
            IdentityModel {
                path,
                len: metadata.len,
                modified,
                changed: token_of(metadata.details),
                object: object_of(metadata.details),
            },
        ),
        Err(_) => None,
    }
}

/// A time as `statx` reports it.
#[derive(Debug, Clone, Copy, PartialEq, Eq, Default, Structural)]
pub struct LinuxStatxTimestamp {
    pub seconds: i64,
    pub nanos: u32,
}

/// What `statx` reports of a file.
#[derive(Debug, Clone, Copy, PartialEq, Eq, Default, Structural)]
pub struct LinuxStatx {
    /// Which of the other fields the kernel filled in.
    pub mask: u32,
    pub inode: u64,
    pub size: u64,
    pub modified: LinuxStatxTimestamp,
    pub device_major: u32,
    pub device_minor: u32,
    pub mount_id: u64,
}

/// The fields of `statx` that an identity needs: inode, size, modification time, and mount.
pub const STATX_IDENTITY_MASK: u32 = 0x100 | 0x200 | 0x40 | 0x1000;

/// `ENOSYS`: the kernel has no such call.
pub const ENOSYS: i32 = 38;

/// `EINVAL`: the kernel does not take these arguments.
pub const EINVAL: i32 = 22;

/// `EOPNOTSUPP`: the filesystem does not support the call.
pub const EOPNOTSUPP: i32 = 95;

/// What identifies a file that `statx` described, if it filled in every field that is needed.
pub open spec fn statx_identity(path: Seq<u8>, status: LinuxStatx) -> Result<
    Option<IdentityModel>,
    IoErrorModel,
> {
    if status.mask & STATX_IDENTITY_MASK != STATX_IDENTITY_MASK || status.modified.nanos
        >= NANOS_PER_SECOND {
        Ok(None)
    } else {
        match kernel_time(status.modified.seconds, status.modified.nanos) {
            Ok(modified) => Ok(
                Some(
                    IdentityModel {
                        path,
                        len: status.size,
                        modified,
                        changed: None,
                        object: Some(
                            FileObjectIdentity {
                                device_major: status.device_major,
                                device_minor: status.device_minor,
                                mount_id: status.mount_id,
                                inode: status.inode,
                            },
                        ),
                    },
                ),
            ),
            Err(error) => Err(error),
        }
    }
}

/// What identifies a file on a network filesystem, from what the kernel answered.
///
/// A kernel without `statx`, or none asked, is no failure: there is just no identity.
pub open spec fn network_identity(
    path: Seq<u8>,
    status: Option<Result<LinuxStatx, IoErrorModel>>,
) -> Result<Option<IdentityModel>, IoErrorModel> {
    match status {
        None => Ok(None),
        Some(Ok(status)) => statx_identity(path, status),
        Some(Err(error)) => if error.code == Some(ENOSYS) || error.code == Some(EINVAL)
            || error.code == Some(EOPNOTSUPP) {
            Ok(None)
        } else {
            Err(error)
        },
    }
}

/// What identifies a file where metadata can stand in for its digest.
pub open spec fn cache_identity(
    path: Seq<u8>,
    metadata: MetadataModel,
    unreliable: bool,
    status: Option<Result<LinuxStatx, IoErrorModel>>,
) -> Result<Option<IdentityModel>, IoErrorModel> {
    if unreliable {
        network_identity(path, status)
    } else {
        Ok(described(path, metadata))
    }
}

/// What identifies a file now: by its digest-cache identity, or else by its metadata.
pub open spec fn identity_now(
    path: Seq<u8>,
    metadata: MetadataModel,
    unreliable: bool,
    status: Option<Result<LinuxStatx, IoErrorModel>>,
) -> Result<Option<IdentityModel>, IoErrorModel> {
    match cache_identity(path, metadata, unreliable, status) {
        Ok(Some(identity)) => Ok(Some(identity)),
        Ok(None) => Ok(described(path, metadata)),
        Err(error) => Err(error),
    }
}

/// The view of what `statx` answered, where it was asked.
pub open spec fn status_view(status: Option<Result<LinuxStatx, IoError>>) -> Option<
    Result<LinuxStatx, IoErrorModel>,
> {
    match status {
        Some(status) => Some(outcome_view(status)),
        None => None,
    }
}

/// What identifies a file that `statx` described.
pub fn nfs_identity_from_statx(path: &FilePath, status: &LinuxStatx) -> (identity: Result<
    Option<FileIdentity>,
    IoError,
>)
    ensures
        result_opt_view(identity) == statx_identity(path@, *status),
{
    if status.mask & STATX_IDENTITY_MASK != STATX_IDENTITY_MASK || status.modified.nanos
        >= NANOS_PER_SECOND {
        return Ok(None);
    }
    match system_time(status.modified.seconds, status.modified.nanos) {
        Ok(modified) => Ok(
            Some(
                FileIdentity {
                    path: path.duplicate(),
                    len: status.size,
                    modified,
                    changed: None,
                    object: Some(
                        FileObjectIdentity {
                            device_major: status.device_major,
                            device_minor: status.device_minor,
                            mount_id: status.mount_id,
                            inode: status.inode,
                        },
                    ),
                },
            ),
        ),
        Err(error) => Err(error),
    }
}

/// What identifies a file on a network filesystem, from what the kernel answered.
pub fn nfs_file_identity(
    path: &FilePath,
    status: &Option<Result<LinuxStatx, IoError>>,
) -> (identity: Result<Option<FileIdentity>, IoError>)
    ensures
        result_opt_view(identity) == network_identity(path@, status_view(*status)),
{
    match status {
        None => Ok(None),
        Some(Ok(status)) => nfs_identity_from_statx(path, status),
        Some(Err(error)) => match error.code {
            Some(code) if code == ENOSYS || code == EINVAL || code == EOPNOTSUPP => Ok(None),
            _ => Err(error.duplicate()),
        },
    }
}

/// What identifies a file where metadata can stand in for its digest.
pub fn digest_cache_identity(
    path: &FilePath,
    metadata: &FileMetadata,
    unreliable: bool,
    status: &Option<Result<LinuxStatx, IoError>>,
) -> (identity: Result<Option<FileIdentity>, IoError>)
    ensures
        result_opt_view(identity) == cache_identity(
            path@,
            metadata@,
            unreliable,
            status_view(*status),
        ),
{
    if unreliable {
        nfs_file_identity(path, status)
    } else {
        Ok(FileIdentity::describe(path, metadata))
    }
}

/// A look at a path: its metadata and, where that cannot be relied on, what `statx` says of it.
#[derive(Debug)]
pub struct PathReading {
    pub metadata: Result<FileMetadata, IoError>,
    pub status: Option<Result<LinuxStatx, IoError>>,
}

/// What a [`PathReading`] says.
pub struct ReadingModel {
    pub metadata: Result<MetadataModel, IoErrorModel>,
    pub status: Option<Result<LinuxStatx, IoErrorModel>>,
}

impl View for PathReading {
    type V = ReadingModel;

    open spec fn view(&self) -> ReadingModel {
        ReadingModel { metadata: result_view(self.metadata), status: status_view(self.status) }
    }
}

/// What identifies the file at a path, from a look at it.
pub open spec fn identity_read(path: Seq<u8>, reading: ReadingModel, unreliable: bool) -> Result<
    Option<IdentityModel>,
    IoErrorModel,
> {
    match reading.metadata {
        Ok(metadata) => identity_now(path, metadata, unreliable, reading.status),
        Err(error) => Err(error),
    }
}

/// What identifies the file at a path, from a look at it.
pub fn current_file_identity(path: &FilePath, reading: &PathReading, unreliable: bool) -> (identity:
    Result<Option<FileIdentity>, IoError>)
    ensures
        result_opt_view(identity) == identity_read(path@, reading@, unreliable),
{
    match &reading.metadata {
        Ok(metadata) => current_file_identity_from_metadata(
            path,
            metadata,
            unreliable,
            &reading.status,
        ),
        Err(error) => Err(error.duplicate()),
    }
}

/// What identifies a file now: by its digest-cache identity, or else by its metadata.
pub fn current_file_identity_from_metadata(
    path: &FilePath,
    metadata: &FileMetadata,
    unreliable: bool,
    status: &Option<Result<LinuxStatx, IoError>>,
) -> (identity: Result<Option<FileIdentity>, IoError>)
    ensures
        result_opt_view(identity) == identity_now(
            path@,
            metadata@,
            unreliable,
            status_view(*status),
        ),
{
    match digest_cache_identity(path, metadata, unreliable, status) {
        Ok(Some(identity)) => Ok(Some(identity)),
        Ok(None) => Ok(FileIdentity::describe(path, metadata)),
        Err(error) => Err(error),
    }
}

/// Whether a file still has an identity, from a look at its path and at its filesystem.
pub open spec fn still_stands(
    identity: IdentityModel,
    reading: ReadingModel,
    unreliable: Result<bool, IoErrorModel>,
) -> Result<bool, IoErrorModel> {
    match (reading.metadata, unreliable) {
        (Err(error), _) => Err(error),
        (Ok(_), Err(error)) => Err(error),
        (Ok(metadata), Ok(unreliable)) => match cache_identity(
            identity.path,
            metadata,
            unreliable,
            reading.status,
        ) {
            Ok(found) => Ok(is_identity(found, identity)),
            Err(error) => Err(error),
        },
    }
}

impl FileIdentity {
    /// Describe a file from metadata already in hand, or nothing when the
    /// filesystem reports no modification time to compare against later.
    pub fn describe(path: &FilePath, metadata: &FileMetadata) -> (identity: Option<FileIdentity>)
        ensures
            crate::views::opt_view(identity) == described(path@, metadata@),
    {
        match &metadata.modified {
            Ok(modified) => Some(
                FileIdentity {
                    path: path.duplicate(),
                    len: metadata.len,
                    modified: *modified,
                    changed: change_token(metadata.details),
                    object: metadata_object_identity(metadata.details),
                },
            ),
            Err(_) => None,
        }
    }

    /// Describe a file only when metadata can safely stand in for its digest.
    ///
    /// Linux NFS may revise cached change times without a write, so it uses a
    /// cached object/length/mtime identity that deliberately omits ctime. This
    /// is the same timestamp-freshness contract as Cargo's;
    /// forcing a server round trip per input would serialize large NFS builds.
    /// If the kernel cannot supply every required field, callers hash instead.
    pub fn for_digest_cache(
        path: &FilePath,
        metadata: &FileMetadata,
        unreliable: Result<bool, IoError>,
        status: &Option<Result<LinuxStatx, IoError>>,
    ) -> (identity: Result<Option<FileIdentity>, IoError>)
        ensures
            match unreliable {
                Ok(unreliable) => result_opt_view(identity) == cache_identity(
                    path@,
                    metadata@,
                    unreliable,
                    status_view(*status),
                ),
                Err(error) => result_opt_view(identity) == Err::<
                    Option<IdentityModel>,
                    IoErrorModel,
                >(error@),
            },
    {
        match unreliable {
            Ok(unreliable) => digest_cache_identity(path, metadata, unreliable, status),
            Err(error) => Err(error),
        }
    }

    /// Whether the file at this identity's path still has exactly this
    /// identity, so the digest recorded against it still describes the bytes on
    /// disk without reading them again.
    ///
    /// Length alone would miss an overwrite that keeps the size, and the
    /// modification time can be put back by whoever rewrote the file. The
    /// change time cannot be set from user space, so where the platform reports
    /// one a rewrite that restores the old modification time still shows. A
    /// file that has vanished is an error rather than a change, so the caller
    /// can tell the two apart.
    pub fn still_describes(
        &self,
        reading: &PathReading,
        unreliable: Result<bool, IoError>,
    ) -> (stands: Result<bool, IoError>)
        ensures
            outcome_view(stands) == still_stands(self@, reading@, outcome_view(unreliable)),
    {
        match &reading.metadata {
            Err(error) => Err(error.duplicate()),
            Ok(metadata) => match FileIdentity::for_digest_cache(
                &self.path,
                metadata,
                unreliable,
                &reading.status,
            ) {
                Ok(Some(found)) => Ok(found == *self),
                Ok(None) => Ok(false),
                Err(error) => Err(error),
            },
        }
    }

    /// Whether this identity is strong enough to stand in for a second read.
    pub fn can_skip_content_verification(&self) -> (can: bool)
        ensures
            can == (self@.changed is Some || self@.object is Some),
    {
        self.changed.is_some() || self.object.is_some()
    }

    /// Whether this identity names an object, and the other one names the same.
    pub fn names_object_of(&self, other: &FileIdentity) -> (same: bool)
        ensures
            same == (self@.object is Some && self@.object == other@.object),
    {
        self.object.is_some() && same_object(self.object, other.object)
    }

    /// A copy of the identity.
    pub fn duplicate(&self) -> (copy: FileIdentity)
        ensures
            copy@ == self@,
    {
        FileIdentity {
            path: self.path.duplicate(),
            len: self.len,
            modified: self.modified,
            changed: self.changed,
            object: self.object,
        }
    }
}

// Filesystems

/// The type that `statfs` reports of a network filesystem.
pub const NFS_SUPER_MAGIC: i64 = 0x6969;

/// The bytes of a path as the kernel takes them, or why it cannot.
pub fn kernel_path(path: &FilePath) -> (bytes: Result<Vec<u8>, IoError>)
    ensures
        match bytes {
            Ok(bytes) => bytes@ == path@ && !path@.contains(0u8),
            Err(error) => path@.contains(0u8) && error@ == own_error(
                IoErrorKind::InvalidInput,
                "path contains a NUL byte"@,
            ),
        },
{
    let bytes = path.as_bytes();
    let mut i: usize = 0;
    while i < bytes.len()
        invariant
            i <= bytes@.len(),
            bytes@ == path@,
            forall|j: int| 0 <= j < i ==> bytes@[j] != 0,
        decreases bytes@.len() - i,
    {
        if bytes[i] == 0 {
            assert(path@[i as int] == 0);
            return Err(own_io_error(IoErrorKind::InvalidInput, "path contains a NUL byte"));
        }
        i += 1;
    }
    Ok(crate::path::copy_bytes(bytes))
}

/// Which devices hold filesystems whose metadata cannot be relied on, as far as is known.
pub struct FilesystemPolicies {
    devices: BTreeMap<u64, bool>,
}

impl FilesystemPolicies {
    /// What is known of each device.
    pub closed spec fn known(&self) -> Map<u64, bool> {
        self.devices@
    }

    /// With nothing known.
    pub fn new() -> (policies: FilesystemPolicies)
        ensures
            policies.known() == Map::<u64, bool>::empty(),
    {
        FilesystemPolicies { devices: BTreeMap::new() }
    }

    /// Whether a file's metadata cannot be relied on, where that needs no further look.
    ///
    /// Only Linux has to ask, and only once for each device.
    pub fn recall(&self, details: PlatformDetails) -> (unreliable: Option<bool>)
        ensures
            unreliable == (match details {
                PlatformDetails::Linux(unix) => if self.known().contains_key(unix.device) {
                    Some(self.known()[unix.device])
                } else {
                    None
                },
                _ => Some(false),
            }),
    {
        match details {
            PlatformDetails::Linux(unix) => match self.devices.get(&unix.device) {
                Some(unreliable) => Some(*unreliable),
                None => None,
            },
            _ => Some(false),
        }
    }

    /// Whether a file's metadata cannot be relied on, from the type of its filesystem.
    ///
    /// What the device holds is remembered; a failure is not.
    pub fn learn(&mut self, device: u64, filesystem: Result<i64, IoError>) -> (unreliable: Result<
        bool,
        IoError,
    >)
        ensures
            outcome_view(unreliable) == (match filesystem {
                Ok(kind) => Ok::<bool, IoErrorModel>(kind == NFS_SUPER_MAGIC),
                Err(error) => Err::<bool, IoErrorModel>(error@),
            }),
            final(self).known() == (match filesystem {
                Ok(kind) => old(self).known().insert(device, kind == NFS_SUPER_MAGIC),
                Err(_) => old(self).known(),
            }),
    {
        match filesystem {
            Ok(kind) => {
                let unreliable = kind == NFS_SUPER_MAGIC;
                self.devices.insert(device, unreliable);
                Ok(unreliable)
            },
            Err(error) => Err(error),
        }
    }
}

// Reading through a handle

/// The failure of a capture whose file changed under it.
pub open spec fn unstable_capture() -> IoErrorModel {
    own_error(IoErrorKind::WouldBlock, "file changed while capturing its content observation"@)
}

/// The failure of a capture whose file changed under it.
pub fn unstable_capture_error() -> (error: IoError)
    ensures
        error@ == unstable_capture(),
{
    own_io_error(IoErrorKind::WouldBlock, "file changed while capturing its content observation")
}

/// Whether what was read through a handle belongs to the file that the path names now.
///
/// The length must agree throughout. Where metadata can be relied on, the handle must have had
/// the path's identity before and after; where it cannot, the object and the modification time
/// must agree.
pub open spec fn handle_is_stable(
    path: Seq<u8>,
    before: MetadataModel,
    after: MetadataModel,
    current: IdentityModel,
    unreliable: bool,
    digest_size: u64,
) -> Result<bool, IoErrorModel> {
    if before.len != after.len || after.len != digest_size || current.len != digest_size {
        Ok(false)
    } else if unreliable {
        if before.details is Linux && after.details is Linux {
            match (before.modified, after.modified) {
                (Err(error), _) => Err(error),
                (Ok(_), Err(error)) => Err(error),
                (Ok(earlier), Ok(later)) => Ok(
                    current.object matches Some(object) && earlier == later && later
                        == current.modified && object_matches(before.details, object)
                        && object_matches(after.details, object),
                ),
            }
        } else {
            Ok(false)
        }
    } else {
        Ok(
            described(path, before) matches Some(earlier) && described(path, after) matches Some(
                later,
            ) && same_identity(earlier, later) && same_identity(later, current),
        )
    }
}

/// Whether what was read through a handle belongs to the file that the path names now.
pub fn handle_observation_is_stable(
    path: &FilePath,
    before: &FileMetadata,
    after: &FileMetadata,
    current: &FileIdentity,
    unreliable: bool,
    digest_size: u64,
) -> (stable: Result<bool, IoError>)
    ensures
        outcome_view(stable) == handle_is_stable(
            path@,
            before@,
            after@,
            current@,
            unreliable,
            digest_size,
        ),
{
    if before.len != after.len || after.len != digest_size || current.len != digest_size {
        return Ok(false);
    }
    if unreliable {
        if !matches!(before.details, PlatformDetails::Linux(_)) || !matches!(
            after.details,
            PlatformDetails::Linux(_)
        ) {
            return Ok(false);
        }
        let earlier = match &before.modified {
            Ok(modified) => *modified,
            Err(error) => {
                return Err(error.duplicate());
            },
        };
        let later = match &after.modified {
            Ok(modified) => *modified,
            Err(error) => {
                return Err(error.duplicate());
            },
        };
        return Ok(
            match &current.object {
                Some(object) => earlier == later && later == current.modified
                    && metadata_matches_object(before, object) && metadata_matches_object(
                    after,
                    object,
                ),
                None => false,
            },
        );
    }
    match (FileIdentity::describe(path, before), FileIdentity::describe(path, after)) {
        (Some(earlier), Some(later)) => Ok(earlier == later && later == *current),
        _ => Ok(false),
    }
}

} // verus!
