//! Measurement records and outbound packets: parsing one delimited telemetry
//! line into a typed record, and the pure record-to-packet conversion.
//!
//! A telemetry line carries 17 comma-separated fields: a timestamp, fifteen
//! real-valued sensor readings, and a satellite count. The sensor readings
//! are floating-point quantities, whose interpretation is left to the
//! (unverified) display layer: here each is carried as its trimmed source
//! text, so that nothing of the line is lost or reordered. The satellite
//! count is an unsigned integer and is parsed here, with the documented
//! fallback to 0 on malformed text.

use vstd::prelude::*;

use crate::text::{
    parse_u32_default, parse_u32_or_zero, split_bytes, split_on, trim_bytes, trim_spec, views_of,
};

verus! {

/// Mathematical content of one decoded telemetry sample.
pub struct TelemetryDataView {
    pub timestamp: Seq<u8>,
    pub accel_x: Seq<u8>,
    pub accel_y: Seq<u8>,
    pub accel_z: Seq<u8>,
    pub gyro_x: Seq<u8>,
    pub gyro_y: Seq<u8>,
    pub gyro_z: Seq<u8>,
    pub temp: Seq<u8>,
    pub pressure: Seq<u8>,
    pub alt_bmp: Seq<u8>,
    pub mag_x: Seq<u8>,
    pub mag_y: Seq<u8>,
    pub mag_z: Seq<u8>,
    pub latitude: Seq<u8>,
    pub longitude: Seq<u8>,
    pub satellites: u32,
    pub alt_gps: Seq<u8>,
}

/// One decoded telemetry sample, as parsed from a single delimited line.
pub struct TelemetryData {
    pub timestamp: Vec<u8>,
    pub accel_x: Vec<u8>,
    pub accel_y: Vec<u8>,
    pub accel_z: Vec<u8>,
    pub gyro_x: Vec<u8>,
    pub gyro_y: Vec<u8>,
    pub gyro_z: Vec<u8>,
    pub temp: Vec<u8>,
    pub pressure: Vec<u8>,
    pub alt_bmp: Vec<u8>,
    pub mag_x: Vec<u8>,
    pub mag_y: Vec<u8>,
    pub mag_z: Vec<u8>,
    pub latitude: Vec<u8>,
    pub longitude: Vec<u8>,
    pub satellites: u32,
    pub alt_gps: Vec<u8>,
}

impl View for TelemetryData {
    type V = TelemetryDataView;

    open spec fn view(&self) -> TelemetryDataView {
        TelemetryDataView {
            timestamp: self.timestamp@,
            accel_x: self.accel_x@,
            accel_y: self.accel_y@,
            accel_z: self.accel_z@,
            gyro_x: self.gyro_x@,
            gyro_y: self.gyro_y@,
            gyro_z: self.gyro_z@,
            temp: self.temp@,
            pressure: self.pressure@,
            alt_bmp: self.alt_bmp@,
            mag_x: self.mag_x@,
            mag_y: self.mag_y@,
            mag_z: self.mag_z@,
            latitude: self.latitude@,
            longitude: self.longitude@,
            satellites: self.satellites,
            alt_gps: self.alt_gps@,
        }
    }
}

/// Mathematical content of one outbound packet: a sequence number plus the
/// sample it carries.
pub struct TelemetryPacketView {
    pub packet_id: u64,
    pub data: TelemetryDataView,
}

/// One outbound packet: the decoded sample plus the sequence number the
/// stream decoder assigned to it.
pub struct TelemetryPacket {
    pub packet_id: u64,
    pub timestamp: Vec<u8>,
    pub accel_x: Vec<u8>,
    pub accel_y: Vec<u8>,
    pub accel_z: Vec<u8>,
    pub gyro_x: Vec<u8>,
    pub gyro_y: Vec<u8>,
    pub gyro_z: Vec<u8>,
    pub temp: Vec<u8>,
    pub pressure: Vec<u8>,
    pub alt_bmp: Vec<u8>,
    pub mag_x: Vec<u8>,
    pub mag_y: Vec<u8>,
    pub mag_z: Vec<u8>,
    pub latitude: Vec<u8>,
    pub longitude: Vec<u8>,
    pub satellites: u32,
    pub alt_gps: Vec<u8>,
}

impl View for TelemetryPacket {
    type V = TelemetryPacketView;

    open spec fn view(&self) -> TelemetryPacketView {
        TelemetryPacketView {
            packet_id: self.packet_id,
            data: TelemetryDataView {
                timestamp: self.timestamp@,
                accel_x: self.accel_x@,
                accel_y: self.accel_y@,
                accel_z: self.accel_z@,
                gyro_x: self.gyro_x@,
                gyro_y: self.gyro_y@,
                gyro_z: self.gyro_z@,
                temp: self.temp@,
                pressure: self.pressure@,
                alt_bmp: self.alt_bmp@,
                mag_x: self.mag_x@,
                mag_y: self.mag_y@,
                mag_z: self.mag_z@,
                latitude: self.latitude@,
                longitude: self.longitude@,
                satellites: self.satellites,
                alt_gps: self.alt_gps@,
            },
        }
    }
}

/// Number of comma-separated fields a line must carry to become a record.
pub open spec fn required_fields() -> int {
    17
}

/// Whether a line is accepted: exactly 17 comma-separated fields. This is the
/// sole rejection criterion; malformed numeric subfields never reject a line.
pub open spec fn line_accepted(line: Seq<u8>) -> bool {
    split_on(line, 44).len() == required_fields()
}

/// The record an accepted line parses to: the first field (trimmed) is the
/// timestamp, the numeric fields are carried as trimmed text, and the
/// satellite count is parsed with a 0 default.
pub open spec fn parsed_record(line: Seq<u8>) -> TelemetryDataView {
    let f = split_on(line, 44);
    TelemetryDataView {
        timestamp: trim_spec(f[0]),
        accel_x: trim_spec(f[1]),
        accel_y: trim_spec(f[2]),
        accel_z: trim_spec(f[3]),
        gyro_x: trim_spec(f[4]),
        gyro_y: trim_spec(f[5]),
        gyro_z: trim_spec(f[6]),
        temp: trim_spec(f[7]),
        pressure: trim_spec(f[8]),
        alt_bmp: trim_spec(f[9]),
        mag_x: trim_spec(f[10]),
        mag_y: trim_spec(f[11]),
        mag_z: trim_spec(f[12]),
        latitude: trim_spec(f[13]),
        longitude: trim_spec(f[14]),
        satellites: parse_u32_or_zero(trim_spec(f[15])),
        alt_gps: trim_spec(f[16]),
    }
}

/// Parse one telemetry line (already stripped of line terminators) into a
/// record. Returns a record exactly when the line splits into 17
/// comma-separated fields; no other condition rejects a line.
pub fn parse_telemetry(line: &Vec<u8>) -> (r: Option<TelemetryData>)
    ensures
        r is Some <==> line_accepted(line@),
        r matches Some(d) ==> d@ == parsed_record(line@),
{
    let fields = split_bytes(line, 44);
    proof {
        assert(views_of(fields@).len() == fields@.len());
    }
    if fields.len() != 17 {
        return None;
    }
    proof {
        assert(forall|i: int|
            0 <= i < 17 ==> views_of(fields@)[i] == #[trigger] fields@[i]@);
    }
    let sats = parse_u32_default(&trim_bytes(&fields[15]));
    Some(
        TelemetryData {
            timestamp: trim_bytes(&fields[0]),
            accel_x: trim_bytes(&fields[1]),
            accel_y: trim_bytes(&fields[2]),
            accel_z: trim_bytes(&fields[3]),
            gyro_x: trim_bytes(&fields[4]),
            gyro_y: trim_bytes(&fields[5]),
            gyro_z: trim_bytes(&fields[6]),
            temp: trim_bytes(&fields[7]),
            pressure: trim_bytes(&fields[8]),
            alt_bmp: trim_bytes(&fields[9]),
            mag_x: trim_bytes(&fields[10]),
            mag_y: trim_bytes(&fields[11]),
            mag_z: trim_bytes(&fields[12]),
            latitude: trim_bytes(&fields[13]),
            longitude: trim_bytes(&fields[14]),
            satellites: sats,
            alt_gps: trim_bytes(&fields[16]),
        },
    )
}

/// Assemble an outbound packet: a pure field-for-field copy of the record,
/// with the caller-supplied sequence number attached.
pub fn convert_to_packet(data: &TelemetryData, packet_id: u64) -> (p: TelemetryPacket)
    ensures
        p@ == (TelemetryPacketView { packet_id, data: data@ }),
{
    TelemetryPacket {
        packet_id,
        timestamp: copy_bytes(&data.timestamp),
        accel_x: copy_bytes(&data.accel_x),
        accel_y: copy_bytes(&data.accel_y),
        accel_z: copy_bytes(&data.accel_z),
        gyro_x: copy_bytes(&data.gyro_x),
        gyro_y: copy_bytes(&data.gyro_y),
        gyro_z: copy_bytes(&data.gyro_z),
        temp: copy_bytes(&data.temp),
        pressure: copy_bytes(&data.pressure),
        alt_bmp: copy_bytes(&data.alt_bmp),
        mag_x: copy_bytes(&data.mag_x),
        mag_y: copy_bytes(&data.mag_y),
        mag_z: copy_bytes(&data.mag_z),
        latitude: copy_bytes(&data.latitude),
        longitude: copy_bytes(&data.longitude),
        satellites: data.satellites,
        alt_gps: copy_bytes(&data.alt_gps),
    }
}

/// An owned copy of a byte string.
pub fn copy_bytes(v: &Vec<u8>) -> (r: Vec<u8>)
    ensures
        r@ == v@,
{
    let r = crate::text::copy_range(v, 0, v.len());
    proof {
        assert(v@.subrange(0, v@.len() as int) =~= v@);
    }
    r
}

} // verus!
