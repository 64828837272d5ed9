//! The messages exchanged between peers: the request for a file and the list of shared
//! files, with their protocol-buffer encoding.
use vstd::prelude::*;
use vstd::utf8::encode_utf8;

use crate::command::strings_view;
use crate::wire::{
    decode_key, encode_repeated_string_field, encode_string_field, lemma_decode_key_len,
    lemma_string_field_roundtrip, lemma_string_field_value_len, read_key,
    read_repeated_string_field, read_string_field, repeated_string_field_bytes,
    repeated_string_field_len, skip_field, skipped_field_len, string_field_bytes,
    string_field_len, string_field_value, varint_bytes,
};

verus! {

/// The request for a file: field 1 holds the name of the file.
#[derive(Debug, Clone, PartialEq)]
pub struct FileGetMessage {
    pub file_name: String,
}

/// The answer to a request for the list of shared files: field 1, repeated, holds the
/// file names.
#[derive(Debug, Clone, PartialEq)]
pub struct ListFilesResponse {
    pub file_names: Vec<String>,
}

/// The bytes could not be read as a message.
#[derive(Debug, Clone, Copy, PartialEq, Eq)]
pub struct MessageDecodeError;

/// The encoding of a file request: nothing for an empty file name (the default value),
/// else the string field 1.
pub open spec fn file_get_message_bytes(file_name: Seq<char>) -> Seq<u8> {
    if file_name.len() == 0 {
        Seq::empty()
    } else {
        string_field_bytes(1, file_name)
    }
}

/// The encoding of a list of file names: one string field 1 per name, in order.
pub open spec fn list_files_response_bytes(file_names: Seq<Seq<char>>) -> Seq<u8> {
    repeated_string_field_bytes(1, file_names)
}

/// Reading the fields of a file request from `bytes`, starting from the file name `name`:
/// each field 1 replaces the name, fields with other numbers are skipped.
pub open spec fn file_get_message_fields(bytes: Seq<u8>, name: Seq<char>) -> Option<Seq<char>>
    decreases bytes.len(),
{
    if bytes.len() == 0 {
        Some(name)
    } else {
        match decode_key(bytes) {
            None => None,
            Some((tag, wire, n)) => {
                proof {
                    lemma_decode_key_len(bytes);
                }
                let rest = bytes.skip(n as int);
                if tag == 1 {
                    match string_field_value(wire, rest) {
                        None => None,
                        Some((s, m)) => {
                            proof {
                                lemma_string_field_value_len(wire, rest);
                            }
                            file_get_message_fields(rest.skip(m as int), s)
                        },
                    }
                } else {
                    match skipped_field_len(wire, tag, rest) {
                        None => None,
                        Some(m) => if m <= rest.len() {
                            file_get_message_fields(rest.skip(m as int), name)
                        } else {
                            None
                        },
                    }
                }
            },
        }
    }
}

/// The file name that `bytes` encode as a file request, if they do.
pub open spec fn decode_file_get_message(bytes: Seq<u8>) -> Option<Seq<char>> {
    file_get_message_fields(bytes, Seq::empty())
}

/// Reading the fields of a list of file names from `bytes`, after the names `names`:
/// each field 1 appends a name, fields with other numbers are skipped.
pub open spec fn list_files_response_fields(bytes: Seq<u8>, names: Seq<Seq<char>>) -> Option<
    Seq<Seq<char>>,
>
    decreases bytes.len(),
{
    if bytes.len() == 0 {
        Some(names)
    } else {
        match decode_key(bytes) {
            None => None,
            Some((tag, wire, n)) => {
                proof {
                    lemma_decode_key_len(bytes);
                }
                let rest = bytes.skip(n as int);
                if tag == 1 {
                    match string_field_value(wire, rest) {
                        None => None,
                        Some((s, m)) => {
                            proof {
                                lemma_string_field_value_len(wire, rest);
                            }
                            list_files_response_fields(rest.skip(m as int), names.push(s))
                        },
                    }
                } else {
                    match skipped_field_len(wire, tag, rest) {
                        None => None,
                        Some(m) => if m <= rest.len() {
                            list_files_response_fields(rest.skip(m as int), names)
                        } else {
                            None
                        },
                    }
                }
            },
        }
    }
}

/// The file names that `bytes` encode as a list of file names, if they do.
pub open spec fn decode_list_files_response(bytes: Seq<u8>) -> Option<Seq<Seq<char>>> {
    list_files_response_fields(bytes, Seq::empty())
}

impl FileGetMessage {
    pub fn new(file_name: String) -> (r: Self)
        ensures
            r.file_name == file_name,
    {
        FileGetMessage { file_name }
    }

    /// The protocol-buffer encoding of the request.
    pub fn encode(&self) -> (r: Vec<u8>)
        ensures
            r@ == file_get_message_bytes(self.file_name@),
    {
        let mut buf: Vec<u8> = Vec::new();
        if !self.file_name.as_str().is_empty() {
            encode_string_field(1, &self.file_name, &mut buf);
        }
        assert(buf@ =~= file_get_message_bytes(self.file_name@));
        buf
    }

    /// The number of bytes of the encoding of the request.
    pub fn encoded_len(&self) -> (r: usize)
        requires
            file_get_message_bytes(self.file_name@).len() <= usize::MAX,
        ensures
            r == file_get_message_bytes(self.file_name@).len(),
    {
        if !self.file_name.as_str().is_empty() {
            string_field_len(1, &self.file_name)
        } else {
            0
        }
    }

    /// Reads a request from its protocol-buffer encoding.
    pub fn decode(bytes: &[u8]) -> (r: Result<Self, MessageDecodeError>)
        ensures
            match decode_file_get_message(bytes@) {
                Some(name) => r matches Ok(m) && m.file_name@ == name,
                None => r is Err,
            },
    {
        let mut rest = bytes;
        let mut file_name = String::new();
        while rest.len() > 0
            invariant
                decode_file_get_message(bytes@) == file_get_message_fields(rest@, file_name@),
            decreases rest.len(),
        {
            proof {
                lemma_decode_key_len(rest@);
            }
            let (key, after_key) = read_key(rest);
            let (tag, wire) = match key {
                Ok(k) => k,
                Err(_) => return Err(MessageDecodeError),
            };
            if tag == 1 {
                proof {
                    lemma_string_field_value_len(wire, after_key@);
                }
                let (res, after) = read_string_field(wire, &mut file_name, after_key);
                match res {
                    Ok(()) => {
                        rest = after;
                    },
                    Err(_) => return Err(MessageDecodeError),
                }
            } else {
                let (res, after) = skip_field(wire, tag, after_key);
                match res {
                    Ok(()) => {
                        rest = after;
                    },
                    Err(_) => return Err(MessageDecodeError),
                }
            }
        }
        Ok(FileGetMessage { file_name })
    }
}

impl ListFilesResponse {
    /// The protocol-buffer encoding of the list.
    pub fn encode(&self) -> (r: Vec<u8>)
        ensures
            r@ == list_files_response_bytes(strings_view(self.file_names@)),
    {
        let mut buf: Vec<u8> = Vec::new();
        encode_repeated_string_field(1, &self.file_names, &mut buf);
        assert(buf@ =~= list_files_response_bytes(strings_view(self.file_names@)));
        buf
    }

    /// The number of bytes of the encoding of the list.
    pub fn encoded_len(&self) -> (r: usize)
        requires
            list_files_response_bytes(strings_view(self.file_names@)).len() <= usize::MAX,
        ensures
            r == list_files_response_bytes(strings_view(self.file_names@)).len(),
    {
        repeated_string_field_len(1, &self.file_names)
    }

    /// Reads a list from its protocol-buffer encoding.
    pub fn decode(bytes: &[u8]) -> (r: Result<Self, MessageDecodeError>)
        ensures
            match decode_list_files_response(bytes@) {
                Some(names) => r matches Ok(m) && strings_view(m.file_names@) == names,
                None => r is Err,
            },
    {
        let mut rest = bytes;
        let mut file_names: Vec<String> = Vec::new();
        assert(strings_view(file_names@) =~= Seq::<Seq<char>>::empty());
        while rest.len() > 0
            invariant
                decode_list_files_response(bytes@) == list_files_response_fields(
                    rest@,
                    strings_view(file_names@),
                ),
            decreases rest.len(),
        {
            proof {
                lemma_decode_key_len(rest@);
            }
            let (key, after_key) = read_key(rest);
            let (tag, wire) = match key {
                Ok(k) => k,
                Err(_) => return Err(MessageDecodeError),
            };
            if tag == 1 {
                proof {
                    lemma_string_field_value_len(wire, after_key@);
                }
                let (res, after) = read_repeated_string_field(wire, &mut file_names, after_key);
                match res {
                    Ok(()) => {
                        rest = after;
                    },
                    Err(_) => return Err(MessageDecodeError),
                }
            } else {
                let (res, after) = skip_field(wire, tag, after_key);
                match res {
                    Ok(()) => {
                        rest = after;
                    },
                    Err(_) => return Err(MessageDecodeError),
                }
            }
        }
        Ok(ListFilesResponse { file_names })
    }
}

/// Decoding the encoding of a file request gives back its file name.
pub proof fn lemma_file_get_message_roundtrip(file_name: Seq<char>)
    requires
        encode_utf8(file_name).len() <= u64::MAX,
    ensures
        decode_file_get_message(file_get_message_bytes(file_name)) == Some(file_name),
{
    if file_name.len() != 0 {
        let bytes = string_field_bytes(1, file_name);
        lemma_string_field_roundtrip(1, file_name, Seq::empty());
        assert(bytes + Seq::<u8>::empty() =~= bytes);
        let key_len = varint_bytes(10).len();
        lemma_decode_key_len(bytes);
        let rest = bytes.skip(key_len as int);
        let m = (bytes.len() - key_len) as nat;
        assert(decode_key(bytes) == Some((1u32, 2u8, key_len)));
        assert(string_field_value(2, rest) == Some((file_name, m)));
        assert(rest.skip(m as int) =~= Seq::<u8>::empty());
        assert(file_get_message_fields(rest.skip(m as int), file_name) == Some(file_name));
        assert(file_get_message_fields(bytes, Seq::empty()) == Some(file_name));
    } else {
        assert(file_name =~= Seq::<char>::empty());
    }
}

proof fn lemma_list_files_response_fields(file_names: Seq<Seq<char>>, acc: Seq<Seq<char>>)
    requires
        forall|i: int| 0 <= i < file_names.len() ==> encode_utf8(#[trigger] file_names[i]).len()
            <= u64::MAX,
    ensures
        list_files_response_fields(list_files_response_bytes(file_names), acc) == Some(
            acc + file_names,
        ),
    decreases file_names.len(),
{
    if file_names.len() == 0 {
        assert(acc + file_names =~= acc);
    } else {
        let first = file_names[0];
        let others = file_names.drop_first();
        let tail = list_files_response_bytes(others);
        let bytes = list_files_response_bytes(file_names);
        assert(bytes == string_field_bytes(1, first) + tail);
        lemma_string_field_roundtrip(1, first, tail);
        let key_len = varint_bytes(10).len();
        let rest = bytes.skip(key_len as int);
        assert(rest.skip((string_field_bytes(1, first).len() - key_len) as int) =~= tail);
        lemma_decode_key_len(bytes);
        assert forall|i: int| 0 <= i < others.len() implies encode_utf8(
            #[trigger] others[i],
        ).len() <= u64::MAX by {
            assert(others[i] == file_names[i + 1]);
        }
        lemma_list_files_response_fields(others, acc.push(first));
        assert(acc.push(first) + others =~= acc + file_names);
    }
}

/// Decoding the encoding of a list of file names gives back the list.
pub proof fn lemma_list_files_response_roundtrip(file_names: Seq<Seq<char>>)
    requires
        forall|i: int| 0 <= i < file_names.len() ==> encode_utf8(#[trigger] file_names[i]).len()
            <= u64::MAX,
    ensures
        decode_list_files_response(list_files_response_bytes(file_names)) == Some(file_names),
{
    lemma_list_files_response_fields(file_names, Seq::empty());
    assert(Seq::<Seq<char>>::empty() + file_names =~= file_names);
}

} // verus!
