//! What times and identities stand for.

use crate::digest::DigestModel;
use crate::error::{IoErrorKind, IoErrorModel};
use crate::identity::{
    cache_identity, described, handle_is_stable, identity_now, identity_read, is_identity,
    kernel_time, network_identity, object_matches, object_of, same_identity, statx_identity,
    still_stands, token_of, unstable_capture, FileObjectIdentity, FileTime, IdentityModel,
    LinuxStatx, MetadataModel, PlatformDetails, ReadingModel, UnixDetails, NANOS_PER_SECOND,
    NFS_SUPER_MAGIC, STATX_IDENTITY_MASK,
};
use crate::observation::{
    comparison, observed_snapshot, same_file_object, snapshot_matches, FileObservationMatch,
    ObservationModel, SnapshotModel,
};
use crate::path::path_parts;
use vstd::prelude::*;

verus! {

// Times

/// One time lies before another exactly when it comes first on the line of nanoseconds.
pub proof fn times_are_ordered_by_instant(left: FileTime, right: FileTime)
    requires
        left.nanos < 1_000_000_000,
        right.nanos < 1_000_000_000,
    ensures
        left.precedes(right) <==> left.seconds * 1_000_000_000 + left.nanos < right.seconds
            * 1_000_000_000 + right.nanos,
{
}

/// Of two different times one lies before the other and not the other way round, and what lies
/// before a time lies before all that follow it.
pub proof fn times_form_one_line(first: FileTime, second: FileTime, third: FileTime)
    ensures
        !first.precedes(first),
        first.precedes(second) ==> !second.precedes(first),
        first != second ==> first.precedes(second) || second.precedes(first),
        first.precedes(second) && second.precedes(third) ==> first.precedes(third),
{
}

/// A kernel's time keeps its instant, with less than a second of nanoseconds; it is refused only
/// where its seconds cannot be counted.
pub proof fn kernel_times_keep_their_instant(seconds: i64, nanos: u32)
    ensures
        match kernel_time(seconds, nanos) {
            Ok(time) => {
                &&& time.nanos < 1_000_000_000
                &&& time.seconds * 1_000_000_000 + time.nanos == seconds * 1_000_000_000 + nanos
            },
            Err(error) => {
                &&& seconds * 1_000_000_000 + nanos >= (i64::MAX + 1) * 1_000_000_000
                &&& error.kind == IoErrorKind::InvalidData
                &&& error.message == "file timestamp is out of range"@
            },
        },
        seconds * 1_000_000_000 + nanos >= (i64::MAX + 1) * 1_000_000_000 ==> kernel_time(
            seconds,
            nanos,
        ) is Err,
{
}

// Objects

/// The object of a file on Linux holds its whole device number, put together as the kernel does,
/// and its inode; metadata tells no mount.
pub proof fn linux_objects_hold_device_and_inode(unix: UnixDetails)
    ensures
        object_of(PlatformDetails::Linux(unix)) matches Some(object) && {
            &&& object.inode == unix.inode
            &&& object.mount_id == 0
            &&& unix.device == ((object.device_major as u64 & 0xfffff000) << 32) | ((
            object.device_major as u64 & 0xfff) << 8) | ((object.device_minor as u64 & 0xffffff00)
                << 12) | (object.device_minor as u64 & 0xff)
        },
{
    let device = unix.device;
    let major: u64 = ((device >> 8) & 0x0fff) | ((device >> 32) & 0xfffff000);
    let minor: u64 = (device & 0x00ff) | ((device >> 12) & 0xffffff00);
    assert(major == ((device >> 8) & 0x0fff) | ((device >> 32) & 0xfffff000) && minor == (device
        & 0x00ff) | ((device >> 12) & 0xffffff00) ==> device == ((major & 0xfffff000) << 32) | ((
    major & 0xfff) << 8) | ((minor & 0xffffff00) << 12) | (minor & 0xff) && major <= 0xffff_ffff
        && minor <= 0xffff_ffff) by (bit_vector);
}

/// The object of a file on any other Unix holds its whole device number, by halves, and its inode.
pub proof fn unix_objects_hold_device_and_inode(unix: UnixDetails)
    ensures
        object_of(PlatformDetails::Unix(unix)) matches Some(object) && {
            &&& object.inode == unix.inode
            &&& object.mount_id == 0
            &&& unix.device == ((object.device_major as u64) << 32) | object.device_minor as u64
        },
{
    let device = unix.device;
    assert(device == (((device >> 32) as u32) as u64) << 32 | ((device as u32) as u64))
        by (bit_vector);
}

/// Where the platform reports nothing, there is neither an object nor a change time; elsewhere the
/// change time is the platform's own.
pub proof fn platforms_report_what_they_have(unix: UnixDetails)
    ensures
        object_of(PlatformDetails::Other) is None,
        token_of(PlatformDetails::Other) is None,
        token_of(PlatformDetails::Linux(unix)) == Some(unix.changed),
        token_of(PlatformDetails::Unix(unix)) == Some(unix.changed),
{
}

/// Metadata belongs to an object exactly when both name one device and one inode, whatever the
/// mount.
pub proof fn objects_match_by_device_and_inode(details: PlatformDetails, object: FileObjectIdentity)
    ensures
        object_matches(details, object) <==> object_of(details) == Some(
            FileObjectIdentity {
                device_major: object.device_major,
                device_minor: object.device_minor,
                mount_id: 0,
                inode: object.inode,
            },
        ),
{
}

// Identities

/// Two identities are one exactly when they name one place and agree in length, modification
/// time, change time, and object.
pub proof fn identities_agree_in_every_part(left: IdentityModel, right: IdentityModel)
    ensures
        same_identity(left, right) <==> path_parts(left.path) == path_parts(right.path) && right
            == (IdentityModel { path: right.path, ..left }),
        is_identity(Some(left), right) == same_identity(left, right),
        !is_identity(None, right),
{
}

/// Metadata with a modification time describes a file, by everything that it says; metadata
/// without one describes none.
pub proof fn descriptions_hold_all_of_the_metadata(path: Seq<u8>, metadata: MetadataModel)
    ensures
        described(path, metadata) is Some <==> metadata.modified is Ok,
        described(path, metadata) matches Some(identity) ==> {
            &&& identity.path == path
            &&& identity.len == metadata.len
            &&& metadata.modified == Ok::<FileTime, IoErrorModel>(identity.modified)
            &&& identity.changed == token_of(metadata.details)
            &&& identity.object == object_of(metadata.details)
        },
{
}

/// `statx` identifies a file exactly when it filled in inode, size, modification time and mount,
/// with a valid time; the identity is made of those and of the device, and has no change time.
pub proof fn statx_identities_hold_what_was_filled_in(path: Seq<u8>, status: LinuxStatx)
    ensures
        ({
            let complete = status.mask & 0x1340 == 0x1340 && status.modified.nanos < 1_000_000_000;
            statx_identity(path, status) == Ok::<Option<IdentityModel>, IoErrorModel>(
                if complete {
                    Some(
                        IdentityModel {
                            path,
                            len: status.size,
                            modified: FileTime {
                                seconds: status.modified.seconds,
                                nanos: status.modified.nanos,
                            },
                            changed: None,
                            object: Some(
                                FileObjectIdentity {
                                    device_major: status.device_major,
                                    device_minor: status.device_minor,
                                    mount_id: status.mount_id,
                                    inode: status.inode,
                                },
                            ),
                        },
                    )
                } else {
                    None
                },
            )
        }),
{
    assert((0x100u32 | 0x200u32 | 0x40u32 | 0x1000u32) == 0x1340u32) by (bit_vector);
    assert(STATX_IDENTITY_MASK == 0x1340);
}

/// A kernel that cannot answer `statx` gives no identity; any other failure is passed on.
pub proof fn unsupported_statx_is_no_failure(path: Seq<u8>, error: IoErrorModel)
    ensures
        network_identity(path, None) == Ok::<Option<IdentityModel>, IoErrorModel>(None),
        network_identity(path, Some(Err(error))) == (if error.code == Some(38i32) || error.code
            == Some(22i32) || error.code == Some(95i32) {
            Ok::<Option<IdentityModel>, IoErrorModel>(None)
        } else {
            Err::<Option<IdentityModel>, IoErrorModel>(error)
        }),
{
}

/// Metadata stands in for a digest where it can be relied on, and `statx` where it cannot.
pub proof fn cache_identities_rest_on_reliable_metadata(
    path: Seq<u8>,
    metadata: MetadataModel,
    status: Option<Result<LinuxStatx, IoErrorModel>>,
    filled: LinuxStatx,
)
    ensures
        cache_identity(path, metadata, false, status) == Ok::<Option<IdentityModel>, IoErrorModel>(
            described(path, metadata),
        ),
        cache_identity(path, metadata, true, status) == network_identity(path, status),
        network_identity(path, Some(Ok(filled))) == statx_identity(path, filled),
{
}

/// What identifies a file now is its cache identity, or else its description; a failure to look
/// is passed on.
pub proof fn current_identities_fall_back_to_metadata(
    path: Seq<u8>,
    reading: ReadingModel,
    unreliable: bool,
)
    ensures
        match reading.metadata {
            Err(error) => identity_read(path, reading, unreliable) == Err::<
                Option<IdentityModel>,
                IoErrorModel,
            >(error),
            Ok(metadata) => {
                let cached = cache_identity(path, metadata, unreliable, reading.status);
                identity_read(path, reading, unreliable) == (if cached
                    == Ok::<Option<IdentityModel>, IoErrorModel>(None) {
                    Ok::<Option<IdentityModel>, IoErrorModel>(described(path, metadata))
                } else {
                    cached
                }) && identity_now(path, metadata, unreliable, reading.status) == identity_read(
                    path,
                    reading,
                    unreliable,
                )
            },
        },
{
}

/// On a network filesystem an identity stands exactly while `statx` reports its length,
/// modification time and object.
pub proof fn network_identities_stand_by_statx(
    identity: IdentityModel,
    reading: ReadingModel,
    status: LinuxStatx,
)
    requires
        reading.metadata is Ok,
        reading.status == Some(Ok::<LinuxStatx, IoErrorModel>(status)),
    ensures
        still_stands(identity, reading, Ok(true)) == Ok::<bool, IoErrorModel>(
            status.mask & 0x1340 == 0x1340 && status.modified.nanos < 1_000_000_000 && identity.len
                == status.size && identity.modified.seconds == status.modified.seconds
                && identity.modified.nanos == status.modified.nanos && identity.changed is None
                && identity.object == Some(
                FileObjectIdentity {
                    device_major: status.device_major,
                    device_minor: status.device_minor,
                    mount_id: status.mount_id,
                    inode: status.inode,
                },
            ),
        ),
{
    statx_identities_hold_what_was_filled_in(identity.path, status);
}

/// Where metadata can be relied on, an identity stands exactly while the metadata describes it.
pub proof fn local_identities_stand_by_metadata(
    identity: IdentityModel,
    reading: ReadingModel,
    metadata: MetadataModel,
)
    requires
        reading.metadata == Ok::<MetadataModel, IoErrorModel>(metadata),
    ensures
        still_stands(identity, reading, Ok(false)) == Ok::<bool, IoErrorModel>(
            identity.len == metadata.len && metadata.modified == Ok::<FileTime, IoErrorModel>(
                identity.modified,
            ) && identity.changed == token_of(metadata.details) && identity.object == object_of(
                metadata.details,
            ),
        ),
{
}

/// A path that cannot be looked at, or whose filesystem cannot be qualified, is a failure.
pub proof fn failed_looks_decide_nothing(
    identity: IdentityModel,
    reading: ReadingModel,
    unreliable: Result<bool, IoErrorModel>,
)
    ensures
        reading.metadata matches Err(error) ==> still_stands(identity, reading, unreliable)
            == Err::<bool, IoErrorModel>(error),
        reading.metadata is Ok ==> (unreliable matches Err(error) ==> still_stands(
            identity,
            reading,
            unreliable,
        ) == Err::<bool, IoErrorModel>(error)),
{
}

// Handles

/// Where metadata can be relied on, a read belongs to the file that the path names exactly when
/// length, modification time, change time and object were the same before the read, after it, and
/// at the path, and the read gave every byte.
pub proof fn local_reads_belong_to_unchanged_files(
    path: Seq<u8>,
    before: MetadataModel,
    after: MetadataModel,
    current: IdentityModel,
    size: u64,
)
    ensures
        handle_is_stable(path, before, after, current, false, size) == Ok::<bool, IoErrorModel>(
            before.len == size && after.len == size && current.len == size && before.modified
                == Ok::<FileTime, IoErrorModel>(current.modified) && after.modified == Ok::<
                FileTime,
                IoErrorModel,
            >(current.modified) && token_of(before.details) == current.changed && token_of(
                after.details,
            ) == current.changed && object_of(before.details) == current.object && object_of(
                after.details,
            ) == current.object && path_parts(path) == path_parts(current.path),
        ),
{
}

/// On a network filesystem a read belongs to the file that the path names exactly when length,
/// modification time, device and inode were the same throughout, and the read gave every byte.
pub proof fn network_reads_belong_to_unchanged_files(
    path: Seq<u8>,
    before: UnixDetails,
    after: UnixDetails,
    earlier: MetadataModel,
    later: MetadataModel,
    current: IdentityModel,
    size: u64,
)
    requires
        earlier.details == PlatformDetails::Linux(before),
        later.details == PlatformDetails::Linux(after),
        earlier.modified is Ok,
        later.modified is Ok,
    ensures
        handle_is_stable(path, earlier, later, current, true, size) == Ok::<bool, IoErrorModel>(
            earlier.len == size && later.len == size && current.len == size
                && earlier.modified->Ok_0 == current.modified && later.modified->Ok_0
                == current.modified && current.object is Some && object_of(earlier.details)->Some_0
                == (FileObjectIdentity { mount_id: 0, ..current.object->Some_0 }) && object_of(
                later.details,
            )->Some_0 == (FileObjectIdentity { mount_id: 0, ..current.object->Some_0 }),
        ),
{
}

/// Elsewhere a read from an unreliable filesystem belongs to nothing.
pub proof fn unreliable_reads_need_linux(
    path: Seq<u8>,
    before: MetadataModel,
    after: MetadataModel,
    current: IdentityModel,
    size: u64,
)
    requires
        !(before.details is Linux) || !(after.details is Linux),
    ensures
        handle_is_stable(path, before, after, current, true, size) == Ok::<bool, IoErrorModel>(
            false,
        ),
{
}

/// A network filesystem that reports no modification time is a failure, once the lengths agree.
pub proof fn unreliable_reads_need_times(
    path: Seq<u8>,
    before: MetadataModel,
    after: MetadataModel,
    current: IdentityModel,
    size: u64,
)
    requires
        before.details is Linux,
        after.details is Linux,
        before.len == size,
        after.len == size,
        current.len == size,
    ensures
        before.modified matches Err(error) ==> handle_is_stable(
            path,
            before,
            after,
            current,
            true,
            size,
        ) == Err::<bool, IoErrorModel>(error),
        before.modified is Ok ==> (after.modified matches Err(error) ==> handle_is_stable(
            path,
            before,
            after,
            current,
            true,
            size,
        ) == Err::<bool, IoErrorModel>(error)),
{
}

/// A file that changes under its capture would have to be waited for.
pub proof fn unstable_captures_would_block()
    ensures
        unstable_capture().kind == IoErrorKind::WouldBlock,
        unstable_capture().code is None,
        unstable_capture().message == "file changed while capturing its content observation"@,
        NFS_SUPER_MAGIC == 0x6969,
        NANOS_PER_SECOND == 1_000_000_000,
{
}

// Observations

/// A later look finds an input changed exactly when the digests differ, and reusable exactly when
/// they agree, both cover their whole files, and the two looks were at one place: at one object
/// where that is known, and else with everything else the same.
pub proof fn comparisons_weigh_bytes_then_objects(
    earlier: ObservationModel,
    later: IdentityModel,
    digest: DigestModel,
)
    ensures
        comparison(earlier, Some(later), digest) == FileObservationMatch::Changed
            <==> earlier.digest != digest,
        comparison(earlier, None, digest) == FileObservationMatch::Changed <==> earlier.digest
            != digest,
        comparison(earlier, None, digest) != FileObservationMatch::Reusable,
        comparison(earlier, Some(later), digest) == FileObservationMatch::Reusable <==> {
            &&& earlier.digest == digest
            &&& digest.size == earlier.identity.len
            &&& digest.size == later.len
            &&& path_parts(earlier.identity.path) == path_parts(later.path)
            &&& earlier.identity.object == later.object
            &&& later.object is Some || (earlier.identity.modified == later.modified
                && earlier.identity.changed == later.changed)
        },
{
}

/// Two identities are of one object where both name it at one place, with one length.
pub proof fn objects_are_shared_at_one_place(left: IdentityModel, right: IdentityModel)
    ensures
        same_file_object(left, right) <==> path_parts(left.path) == path_parts(right.path)
            && left.len == right.len && left.object == right.object && left.object is Some,
{
}

/// A snapshot with an observation matches what the observation can be reused for; one without
/// matches its very own identity.
pub proof fn snapshots_match_by_their_best_evidence(
    identity: IdentityModel,
    observation: ObservationModel,
    later: IdentityModel,
    digest: DigestModel,
)
    ensures
        snapshot_matches(observed_snapshot(observation), Some(later), digest) <==> comparison(
            observation,
            Some(later),
            digest,
        ) == FileObservationMatch::Reusable,
        observed_snapshot(observation).identity == observation.identity,
        snapshot_matches(SnapshotModel { identity, observation: None }, Some(later), digest)
            <==> path_parts(later.path) == path_parts(identity.path) && later == (IdentityModel {
            path: later.path,
            ..identity
        }),
        !snapshot_matches(SnapshotModel { identity, observation: None }, None, digest),
        !snapshot_matches(observed_snapshot(observation), None, digest),
{
}

} // verus!
