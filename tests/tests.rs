use std::fmt::Debug;

use tora::read::{FromReader, ToraRead};
use tora::stream::{ByteReader, Error};
use tora::union::{read_variant, write_tag, TagType};
use tora::wire::Wire;
use tora::write::{SerializeIo, ToraWrite};

/// A float field, written as its little-endian IEEE-754 bytes.
#[derive(Debug, PartialEq, Clone, Copy, Default)]
struct F64(f64);

impl Wire for F64 {
    type Model = ();
}

impl SerializeIo for F64 {
    fn serialize(&self, w: &mut Vec<u8>) {
        w.extend_from_slice(&self.0.to_le_bytes());
    }
}

impl FromReader for F64 {
    fn from_reader(r: &mut ByteReader) -> Result<Self, Error> {
        let b = r.read_exact(8)?;
        let mut a = [0u8; 8];
        a.copy_from_slice(&b);
        Ok(F64(f64::from_le_bytes(a)))
    }
}

#[derive(Debug, PartialEq)]
struct StructPacket {
    id: u8,
    sender: String,
    content: Vec<u8>,
}

impl Wire for StructPacket {
    type Model = ();
}

impl SerializeIo for StructPacket {
    fn serialize(&self, w: &mut Vec<u8>) {
        w.writes(&self.id);
        w.writes(&self.sender);
        w.writes(&self.content);
    }
}

impl FromReader for StructPacket {
    fn from_reader(r: &mut ByteReader) -> Result<Self, Error> {
        Ok(Self {
            id: r.reads()?,
            sender: r.reads()?,
            content: r.reads()?,
        })
    }
}

#[derive(Debug, PartialEq)]
struct TuplePacket(u8, Result<(), String>, Vec<u8>);

impl Wire for TuplePacket {
    type Model = ();
}

impl SerializeIo for TuplePacket {
    fn serialize(&self, w: &mut Vec<u8>) {
        w.writes(&self.0);
        w.writes(&self.1);
        w.writes(&self.2);
    }
}

impl FromReader for TuplePacket {
    fn from_reader(r: &mut ByteReader) -> Result<Self, Error> {
        Ok(Self(
            r.reads::<u8>()?,
            r.reads::<Result<(), String>>()?,
            r.reads::<Vec<u8>>()?,
        ))
    }
}

#[derive(Debug, PartialEq)]
enum EnumPacket {
    Ping,
    PlayerJoin(PlayerJoin),
    PlayerMove {
        player_id: u8,
        destination: [F64; 3],
        feet_position: (F64, F64, F64),
    },
}

impl Wire for EnumPacket {
    type Model = ();
}

impl SerializeIo for EnumPacket {
    fn serialize(&self, w: &mut Vec<u8>) {
        match self {
            Self::Ping => {
                write_tag(w, TagType::I64, 0);
            }
            Self::PlayerJoin(x0) => {
                write_tag(w, TagType::I64, 1);
                w.writes(x0);
            }
            Self::PlayerMove {
                player_id,
                destination,
                feet_position,
            } => {
                write_tag(w, TagType::I64, 2);
                w.writes(player_id);
                w.writes(destination);
                w.writes(feet_position);
            }
        }
    }
}

impl FromReader for EnumPacket {
    fn from_reader(r: &mut ByteReader) -> Result<Self, Error> {
        Ok(match read_variant(r, TagType::I64, 3, "EnumPacket")? {
            0 => Self::Ping,
            1 => Self::PlayerJoin(r.reads()?),
            _ => Self::PlayerMove {
                player_id: r.reads()?,
                destination: r.reads()?,
                feet_position: r.reads()?,
            },
        })
    }
}

#[derive(Debug, PartialEq)]
struct PlayerJoin {
    id: u8,
    name: Option<String>,
}

impl Wire for PlayerJoin {
    type Model = ();
}

impl SerializeIo for PlayerJoin {
    fn serialize(&self, w: &mut Vec<u8>) {
        w.writes(&self.id);
        w.writes(&self.name);
    }
}

impl FromReader for PlayerJoin {
    fn from_reader(r: &mut ByteReader) -> Result<Self, Error> {
        Ok(Self {
            id: r.reads()?,
            name: r.reads()?,
        })
    }
}

fn assert_rw_eq<T>(data: T) -> Result<(), Error>
where
    T: SerializeIo + FromReader + PartialEq + Debug,
{
    let mut bytes = Vec::new();
    bytes.writes(&data);

    let mut cursor = ByteReader::new(bytes);
    let received: T = cursor.reads()?;

    assert_eq!(data, received);
    Ok(())
}

#[test]
fn struct_packet() -> Result<(), Error> {
    assert_rw_eq(StructPacket {
        id: 5,
        sender: "John".to_string(),
        content: vec![1, 2, 3],
    })
}

#[test]
fn tuple_packet() -> Result<(), Error> {
    assert_rw_eq(TuplePacket(
        5,
        Err("Could not get username".to_string()),
        vec![1, 2, 3],
    ))
}

#[test]
fn enum_packet() -> Result<(), Error> {
    assert_rw_eq(EnumPacket::PlayerMove {
        player_id: 5,
        destination: [F64(1.4), F64(3.1), F64(9.0)],
        feet_position: (F64(1.4), F64(3.1), F64(7.0)),
    })?;
    assert_rw_eq(EnumPacket::PlayerJoin(PlayerJoin {
        id: 1,
        name: Some("Joseph".to_string()),
    }))
}

#[test]
fn boxes() -> Result<(), Error> {
    assert_rw_eq(Box::new(EnumPacket::Ping))
}

#[test]
fn struct_packet_bytes() {
    let p = StructPacket {
        id: 5,
        sender: "John".to_string(),
        content: vec![1, 2, 3],
    };
    let mut bytes = Vec::new();
    bytes.writes(&p);
    assert_eq!(
        bytes,
        vec![0x05, 0x4A, 0x6F, 0x68, 0x6E, 0x00, 0x03, 0x00, 0x00, 0x00, 0x01, 0x02, 0x03]
    );
    let mut r = ByteReader::new(bytes);
    let back: StructPacket = r.reads().unwrap();
    assert_eq!(back, p);
    assert_eq!(r.remaining(), 0);
}

#[test]
fn enum_variant_tag_is_declaration_index() {
    let mut bytes = Vec::new();
    bytes.writes(&EnumPacket::PlayerJoin(PlayerJoin { id: 7, name: None }));
    assert_eq!(bytes, vec![1, 0, 0, 0, 0, 0, 0, 0, 7, 0]);
    let mut ping = Vec::new();
    ping.writes(&EnumPacket::Ping);
    assert_eq!(ping, vec![0, 0, 0, 0, 0, 0, 0, 0]);
}

#[test]
fn enum_unknown_tag_is_invalid_input() {
    let mut r = ByteReader::new(vec![3, 0, 0, 0, 0, 0, 0, 0, 9]);
    match r.reads::<EnumPacket>() {
        Err(Error::InvalidInput(name)) => assert_eq!(name, "EnumPacket"),
        other => panic!("expected invalid input, got {:?}", other),
    }
}
