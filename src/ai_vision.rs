//! Object kinds and errors of the AI vision sensor.
use vstd::prelude::*;

verus! {

/// Kind of an object that the sensor reports, by its id byte.
#[derive(Debug, Clone, Copy, PartialEq, Eq, Structural)]
pub enum ObjectType {
    Unknown,
    Color,
    Code,
    Model,
    AprilTag,
    All,
}

pub open spec fn object_type_of(value: u8) -> ObjectType {
    if value == 1 {
        ObjectType::Color
    } else if value == 2 {
        ObjectType::Code
    } else if value == 4 {
        ObjectType::Model
    } else if value == 8 {
        ObjectType::AprilTag
    } else if value == 63 {
        ObjectType::All
    } else {
        ObjectType::Unknown
    }
}

impl From<u8> for ObjectType {
    fn from(value: u8) -> (r: ObjectType) {
        match value {
            1 => ObjectType::Color,
            2 => ObjectType::Code,
            4 => ObjectType::Model,
            8 => ObjectType::AprilTag,
            63 => ObjectType::All,
            _ => ObjectType::Unknown,
        }
    }
}

impl vstd::std_specs::convert::FromSpecImpl<u8> for ObjectType {
    open spec fn obeys_from_spec() -> bool {
        true
    }

    open spec fn from_spec(v: u8) -> ObjectType {
        object_type_of(v)
    }
}

/// Errors of the smart ports.
#[derive(Debug, Clone, Copy, PartialEq, Eq, Structural)]
pub enum PortError {
    /// No device is plugged into the port.
    Disconnected,
    /// The device on the port is of another kind.
    IncorrectDevice,
}

/// Errors that can occur when using a vision sensor.
#[derive(Debug, Clone, Copy, PartialEq, Eq, Structural)]
pub enum AiVisionError {
    /// An object reported by the sensor failed to be converted.
    InvalidObject,
    /// Generic port related error.
    Port { source: PortError },
}

impl From<PortError> for AiVisionError {
    fn from(source: PortError) -> (r: AiVisionError) {
        AiVisionError::Port { source }
    }
}

impl vstd::std_specs::convert::FromSpecImpl<PortError> for AiVisionError {
    open spec fn obeys_from_spec() -> bool {
        true
    }

    open spec fn from_spec(source: PortError) -> AiVisionError {
        AiVisionError::Port { source }
    }
}

/// The kind of an object with id byte `id`, where the sensor's data can be
/// read as that kind: colour blobs, models and april tags.
pub fn readable_object_type(id: u8) -> (r: Result<ObjectType, AiVisionError>)
    ensures
        r is Ok <==> (id == 1 || id == 4 || id == 8),
        r matches Ok(t) ==> t == object_type_of(id),
        r matches Err(e) ==> e == AiVisionError::InvalidObject,
{
    let t = ObjectType::from(id);
    match t {
        ObjectType::Color | ObjectType::Model | ObjectType::AprilTag => Ok(t),
        _ => Err(AiVisionError::InvalidObject),
    }
}

} // verus!
