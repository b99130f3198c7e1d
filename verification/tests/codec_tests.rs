use ogg_demux::codec::Error;
use ogg_demux::codec::frame_count;

#[test]
fn status_codes_map_to_variants() {
    assert_eq!(Error::from_c(-1), Error::BadArg);
    assert_eq!(Error::from_c(-2), Error::BufferTooSmall);
    assert_eq!(Error::from_c(-3), Error::InternalError);
    assert_eq!(Error::from_c(-4), Error::InvalidPacket);
    assert_eq!(Error::from_c(-5), Error::Unimplemented);
}

#[test]
fn unknown_status_codes_are_internal_errors() {
    assert_eq!(Error::from_c(0), Error::InternalError);
    assert_eq!(Error::from_c(-6), Error::InternalError);
    assert_eq!(Error::from_c(7), Error::InternalError);
}

#[test]
fn messages_describe_each_variant() {
    assert_eq!(Error::BadArg.message(), "One or more invalid/out of range arguments");
    assert_eq!(Error::BufferTooSmall.message(), "Not enough bytes allocated in the buffer");
    assert_eq!(Error::InternalError.message(), "An internal error was detected");
    assert_eq!(Error::InvalidPacket.message(), "The compressed data passed is corrupted");
    assert_eq!(Error::Unimplemented.message(), "Invalid/unsupported request number");
}

#[test]
fn frame_count_divides_evenly() {
    assert_eq!(frame_count(960, 1), Some(960));
    assert_eq!(frame_count(960, 2), Some(480));
    assert_eq!(frame_count(0, 2), Some(0));
}

#[test]
fn frame_count_rejects_uneven_buffers() {
    assert_eq!(frame_count(961, 2), None);
}
