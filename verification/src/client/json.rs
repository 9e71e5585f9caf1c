//! What to make of the frames that arrive on a client's connection.

use vstd::prelude::*;

verus! {

/// One frame as it comes off the connection. Only a text frame's payload
/// matters here.
pub enum Frame {
    Text(String),
    Binary,
    Ping,
    Pong,
    Close,
}

/// What a connection hands to its owner.
pub enum Received {
    /// A JSON document that is to be decoded into a request of the client.
    Document(String),
    /// Nothing more will come. If `echo_close` is set the client asked to
    /// close and is owed a close frame in return.
    End { echo_close: bool },
}

/// Why a connection has to be closed.
#[derive(Clone, Copy, Debug, PartialEq, Eq, Structural)]
pub enum ProtocolError {
    /// A frame that is neither text nor a close.
    InvalidMessageType,
}

/// The receiving side of a connection that carries JSON documents.
pub struct JsonClient {
    connected: bool,
}

impl JsonClient {
    pub closed spec fn connected(&self) -> bool {
        self.connected
    }

    /// A client on an open connection.
    pub fn new() -> (c: JsonClient)
        ensures
            c.connected(),
    {
        JsonClient { connected: true }
    }

    /// Decides what the frame that arrived means. `None` stands for the end
    /// of the stream. A text frame carries a document; a close frame, the
    /// end of the stream and a connection that is gone all end the
    /// conversation; any other frame is a violation of the protocol.
    pub fn recv(&mut self, frame: Option<Frame>) -> (r: Result<Received, ProtocolError>)
        ensures
            final(self).connected() == old(self).connected(),
            !old(self).connected() ==> r matches Ok(Received::End { echo_close: false }),
            old(self).connected() ==> match frame {
                None => r matches Ok(Received::End { echo_close: false }),
                Some(Frame::Close) => r matches Ok(Received::End { echo_close: true }),
                Some(Frame::Text(doc)) => r matches Ok(Received::Document(text)) && text == doc,
                Some(_) => r == Err::<Received, ProtocolError>(ProtocolError::InvalidMessageType),
            },
    {
        if !self.connected {
            return Ok(Received::End { echo_close: false });
        }
        let frame = match frame {
            Some(frame) => frame,
            None => {
                return Ok(Received::End { echo_close: false });
            },
        };
        match frame {
            Frame::Text(doc) => Ok(Received::Document(doc)),
            Frame::Close => Ok(Received::End { echo_close: true }),
            _ => Err(ProtocolError::InvalidMessageType),
        }
    }
}

} // verus!
