//! The record codec: one line of the log to a typed record, and back.

use vstd::prelude::*;

use crate::text::{
    join_chars, join_with, lemma_join_split, lemma_split_concat, lemma_split_free, lemma_split_join,
    lemma_split_nonempty, lemma_split_pieces_free, split_chars, split_on, views,
};

verus! {

/// One line of the log, tagged by its kind.
#[derive(Debug, Clone, PartialEq, Eq)]
pub enum Record {
    /// `!`: the names of the columns of the table.
    Header { columns: Vec<String> },
    /// `*`: one data row, with as many fields as its line holds.
    Contact { fields: Vec<String> },
    /// `$`: a setting and its value.
    VarSet { setting: String, value: String },
    /// `#`: free text.
    Comment { comment: String },
}

/// What a record holds, as character sequences.
pub enum RecordModel {
    Header { columns: Seq<Seq<char>> },
    Contact { fields: Seq<Seq<char>> },
    VarSet { setting: Seq<char>, value: Seq<char> },
    Comment { comment: Seq<char> },
}

impl View for Record {
    type V = RecordModel;

    open spec fn view(&self) -> RecordModel {
        match self {
            Record::Header { columns } => RecordModel::Header { columns: views(columns@) },
            Record::Contact { fields } => RecordModel::Contact { fields: views(fields@) },
            Record::VarSet { setting, value } => RecordModel::VarSet {
                setting: setting@,
                value: value@,
            },
            Record::Comment { comment } => RecordModel::Comment { comment: comment@ },
        }
    }
}

/// Why a line is not a record.
#[derive(Debug, Clone, Copy, PartialEq, Eq)]
pub enum DecodeError {
    /// The line starts with none of `!`, `*`, `$`, `#` (`found` is its first
    /// character), or it is empty (`found` is `None`).
    UnrecognizedIndicator { found: Option<char> },
    /// A `$` line holds `field_count` fields where it must hold two.
    MalformedRecord { field_count: usize },
}

/// The character that opens a line of the record's kind.
pub open spec fn indicator(r: RecordModel) -> char {
    match r {
        RecordModel::Header { .. } => '!',
        RecordModel::Contact { .. } => '*',
        RecordModel::VarSet { .. } => '$',
        RecordModel::Comment { .. } => '#',
    }
}

/// The fields that a record shows in a table.
pub open spec fn display_fields(r: RecordModel) -> Seq<Seq<char>> {
    match r {
        RecordModel::Header { columns } => columns,
        RecordModel::Contact { fields } => fields,
        RecordModel::VarSet { setting, value } => seq![setting, value],
        RecordModel::Comment { comment } => seq![comment],
    }
}

/// The fields of a line: what follows its first space, split at each space.
pub open spec fn line_fields(line: Seq<char>) -> Seq<Seq<char>> {
    split_on(line, ' ').drop_first()
}

/// The record that a line holds, or why it holds none.
pub open spec fn decode(line: Seq<char>) -> Result<RecordModel, DecodeError> {
    if line.len() == 0 {
        Err(DecodeError::UnrecognizedIndicator { found: None })
    } else {
        let fields = line_fields(line);
        let c = line[0];
        if c == '!' {
            Ok(RecordModel::Header { columns: fields })
        } else if c == '*' {
            Ok(RecordModel::Contact { fields })
        } else if c == '$' {
            if fields.len() == 2 {
                Ok(RecordModel::VarSet { setting: fields[0], value: fields[1] })
            } else {
                Err(DecodeError::MalformedRecord { field_count: fields.len() as usize })
            }
        } else if c == '#' {
            Ok(RecordModel::Comment { comment: join_with(fields, ' ') })
        } else {
            Err(DecodeError::UnrecognizedIndicator { found: Some(c) })
        }
    }
}

/// The line of a record: its indicator, a space, and its fields joined by spaces.
pub open spec fn encode(r: RecordModel) -> Seq<char> {
    seq![indicator(r), ' '] + join_with(display_fields(r), ' ')
}

/// A record that its line brings back unchanged: the fields of a header, a
/// contact or a setting hold no space, and a header or a contact has a field.
pub open spec fn encodable(r: RecordModel) -> bool {
    match r {
        RecordModel::Comment { .. } => true,
        _ => {
            &&& display_fields(r).len() >= 1
            &&& forall|i: int|
                0 <= i < display_fields(r).len() ==> !(#[trigger] display_fields(r)[i]).contains(' ')
        },
    }
}

/// Decoding the line of an encodable record gives the record back.
pub proof fn lemma_decode_encode(r: RecordModel)
    requires
        encodable(r),
    ensures
        decode(encode(r)) == Ok::<RecordModel, DecodeError>(r),
{
    let line = encode(r);
    let parts = display_fields(r);
    let body = join_with(parts, ' ');
    assert(line =~= seq![indicator(r)].push(' ') + body);
    lemma_split_concat(seq![indicator(r)], body, ' ');
    assert(!seq![indicator(r)].contains(' ')) by {
        assert(seq![indicator(r)][0] != ' ');
    }
    lemma_split_free(seq![indicator(r)], ' ');
    assert(line[0] == indicator(r));
    match r {
        RecordModel::Comment { comment } => {
            assert(parts =~= seq![comment]);
            assert(body == comment);
            lemma_join_split(comment, ' ');
            assert(line_fields(line) =~= split_on(comment, ' '));
        },
        _ => {
            lemma_split_join(parts, ' ');
            assert(line_fields(line) =~= parts);
            if let RecordModel::VarSet { .. } = r {
                assert(parts.len() == 2);
            }
        },
    }
}

/// A line that decodes and holds a space decodes to an encodable record.
pub proof fn lemma_decoded_encodable(line: Seq<char>)
    requires
        decode(line) is Ok,
        line.contains(' '),
    ensures
        encodable(decode(line)->Ok_0),
{
    lemma_split_pieces_free(line, ' ');
    lemma_split_nonempty(line, ' ');
    let k = choose|k: int| 0 <= k < line.len() && line[k] == ' ';
    assert(line =~= line.take(k).push(' ') + line.skip(k + 1));
    lemma_split_concat(line.take(k), line.skip(k + 1), ' ');
    lemma_split_nonempty(line.take(k), ' ');
    lemma_split_nonempty(line.skip(k + 1), ' ');
    let fields = line_fields(line);
    assert(fields.len() >= 1);
    assert forall|i: int| 0 <= i < fields.len() implies !(#[trigger] fields[i]).contains(' ') by {
        assert(fields[i] == split_on(line, ' ')[i + 1]);
    }
    let r = decode(line)->Ok_0;
    if let RecordModel::VarSet { .. } = r {
        assert(display_fields(r) =~= fields);
    }
}

/// Decoding, encoding and decoding again gives what the first decoding gave,
/// for every line that decodes and has at least one field after its indicator
/// (that is, holds a space).
pub proof fn lemma_decode_idempotent(line: Seq<char>)
    requires
        decode(line) is Ok,
        line.contains(' '),
    ensures
        decode(encode(decode(line)->Ok_0)) == decode(line),
{
    lemma_decoded_encodable(line);
    lemma_decode_encode(decode(line)->Ok_0);
}

impl Record {
    /// Reads a record from one line of the log.
    pub fn from_line(line: &str) -> (r: Result<Record, DecodeError>)
        ensures
            match r {
                Ok(rec) => decode(line@) == Ok::<RecordModel, DecodeError>(rec@),
                Err(e) => decode(line@) == Err::<RecordModel, DecodeError>(e),
            },
    {
        let n = line.unicode_len();
        if n == 0 {
            return Err(DecodeError::UnrecognizedIndicator { found: None });
        }
        let c = line.get_char(0);
        let mut fields = split_chars(line, ' ');
        proof {
            lemma_split_nonempty(line@, ' ');
        }
        fields.remove(0);
        proof {
            assert(views(fields@) =~= line_fields(line@));
        }
        if c == '!' {
            Ok(Record::Header { columns: fields })
        } else if c == '*' {
            Ok(Record::Contact { fields })
        } else if c == '$' {
            if fields.len() == 2 {
                let setting = fields[0].clone();
                let value = fields[1].clone();
                Ok(Record::VarSet { setting, value })
            } else {
                Err(DecodeError::MalformedRecord { field_count: fields.len() })
            }
        } else if c == '#' {
            proof {
                reveal_strlit(" ");
            }
            let comment = join_chars(fields.as_slice(), " ");
            Ok(Record::Comment { comment })
        } else {
            Err(DecodeError::UnrecognizedIndicator { found: Some(c) })
        }
    }

    /// The character that opens a line of this record's kind.
    pub fn to_char(&self) -> (c: char)
        ensures
            c == indicator(self@),
    {
        match self {
            Record::Comment { .. } => '#',
            Record::Contact { .. } => '*',
            Record::Header { .. } => '!',
            Record::VarSet { .. } => '$',
        }
    }

    /// The fields that this record shows in a table.
    pub fn display_fields(&self) -> (r: Vec<String>)
        ensures
            views(r@) == display_fields(self@),
    {
        let r = match self {
            Record::Header { columns } => columns.clone(),
            Record::Contact { fields } => fields.clone(),
            Record::VarSet { setting, value } => vec![setting.clone(), value.clone()],
            Record::Comment { comment } => vec![comment.clone()],
        };
        proof {
            assert(views(r@) =~= display_fields(self@));
        }
        r
    }

    /// The line of this record.
    pub fn to_string(&self) -> (r: String)
        ensures
            r@ == encode(self@),
    {
        let prefix = match self {
            Record::Header { .. } => "! ",
            Record::Contact { .. } => "* ",
            Record::VarSet { .. } => "$ ",
            Record::Comment { .. } => "# ",
        };
        proof {
            reveal_strlit("! ");
            reveal_strlit("* ");
            reveal_strlit("$ ");
            reveal_strlit("# ");
            reveal_strlit(" ");
        }
        let fields = self.display_fields();
        let body = join_chars(fields.as_slice(), " ");
        let mut out = String::from_str(prefix);
        out.append(body.as_str());
        proof {
            assert(out@ =~= encode(self@));
        }
        out
    }
}

} // verus!
