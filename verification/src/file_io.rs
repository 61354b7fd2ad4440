//! The pairing of input and output filenames for one compress or
//! decompress run, with the default-name rule: swap the extension of
//! the path's last component.
//!
//! Filenames are handled as text; reading and writing the files
//! themselves is outside the library.

use vstd::prelude::*;

verus! {

/// The index of the last `/` in the name, or -1 when there is none.
pub open spec fn spec_last_slash(name: Seq<char>) -> int
    decreases name.len(),
{
    if name.len() == 0 {
        -1
    } else if name.last() == '/' {
        name.len() - 1
    } else {
        spec_last_slash(name.drop_last())
    }
}

/// The index of the last `.` strictly after `lo`, or -1 when there is
/// none: a dot opening the last component hides a file rather than
/// marking an extension.
pub open spec fn spec_last_dot_after(name: Seq<char>, lo: int) -> int
    decreases name.len(),
{
    if name.len() == 0 || name.len() - 1 <= lo {
        -1
    } else if name.last() == '.' {
        name.len() - 1
    } else {
        spec_last_dot_after(name.drop_last(), lo)
    }
}

/// The name with its extension replaced by `ext`: everything up to the
/// last component's last dot, or the whole name when it has no
/// extension, then a dot and `ext`.
pub open spec fn spec_swap_extension(name: Seq<char>, ext: Seq<char>) -> Seq<char> {
    let d = spec_last_dot_after(name, spec_last_slash(name) + 1);
    let stem = if d == -1 {
        name
    } else {
        name.take(d)
    };
    stem + seq!['.'] + ext
}

/// Replaces the extension of the path's last component with `ext`, or
/// appends one when that component has none.
pub fn swap_extension(name: &str, ext: &str) -> (r: String)
    ensures
        r@ == spec_swap_extension(name@, ext@),
{
    let n = name.unicode_len();
    let mut last_slash_found = false;
    let mut last_slash: usize = 0;
    let mut i: usize = 0;
    while i < n
        invariant
            i <= n == name@.len(),
            spec_last_slash(name@.take(i as int)) == if last_slash_found {
                last_slash as int
            } else {
                -1int
            },
            last_slash_found ==> last_slash < i,
        decreases n - i,
    {
        let c = name.get_char(i);
        proof {
            assert(name@.take(i as int + 1).drop_last() =~= name@.take(i as int));
            assert(name@.take(i as int + 1).last() == name@[i as int]);
        }
        if c == '/' {
            last_slash_found = true;
            last_slash = i;
        }
        i = i + 1;
    }
    proof {
        assert(name@.take(n as int) =~= name@);
    }
    let lo: usize = if last_slash_found {
        last_slash + 1
    } else {
        0
    };
    let ghost glo = spec_last_slash(name@) + 1;
    proof {
        assert(lo as int == glo);
    }
    let mut dot_found = false;
    let mut last_dot: usize = 0;
    let mut j: usize = 0;
    while j < n
        invariant
            j <= n == name@.len(),
            lo as int == glo,
            spec_last_dot_after(name@.take(j as int), glo) == if dot_found {
                last_dot as int
            } else {
                -1int
            },
            dot_found ==> last_dot < j,
        decreases n - j,
    {
        let c = name.get_char(j);
        proof {
            assert(name@.take(j as int + 1).drop_last() =~= name@.take(j as int));
            assert(name@.take(j as int + 1).last() == name@[j as int]);
        }
        if c == '.' && j > lo {
            dot_found = true;
            last_dot = j;
        }
        j = j + 1;
    }
    proof {
        assert(name@.take(n as int) =~= name@);
    }
    let stem: &str = if dot_found {
        name.substring_char(0, last_dot)
    } else {
        name
    };
    let mut r = String::new();
    r.append(stem);
    r.append(".");
    r.append(ext);
    proof {
        reveal_strlit(".");
        assert(r@ =~= spec_swap_extension(name@, ext@)) by {
            if dot_found {
                assert(stem@ =~= name@.take(last_dot as int));
            }
            assert("."@ =~= seq!['.']);
        }
    }
    r
}

/// The filenames one compress or decompress run reads and writes: the
/// plain file, its container form, and the optional transcript file.
pub struct FileInputOutput {
    pub unencoded_filename: String,
    pub encoded_filename: String,
    pub debug_encoded_filename: Option<String>,
}

impl FileInputOutput {
    /// Names for a compress run: the container name defaults to the
    /// input with a `lizard` extension, the transcript (when asked
    /// for) to a `dblzd` extension.
    pub fn new_from_unencoded(
        unencoded_filename: &str,
        encoded_filename: Option<&str>,
        debug: bool,
    ) -> (r: Self)
        ensures
            r.unencoded_filename@ == unencoded_filename@,
            r.encoded_filename@ == match encoded_filename {
                Some(provided) => provided@,
                None => spec_swap_extension(unencoded_filename@, "lizard"@),
            },
            match r.debug_encoded_filename {
                Some(d) => debug && d@ == spec_swap_extension(unencoded_filename@, "dblzd"@),
                None => !debug,
            },
    {
        let encoded = match encoded_filename {
            Some(provided) => provided.to_owned(),
            None => swap_extension(unencoded_filename, "lizard"),
        };
        let debug_encoded = if debug {
            Some(swap_extension(unencoded_filename, "dblzd"))
        } else {
            None
        };
        FileInputOutput {
            unencoded_filename: unencoded_filename.to_owned(),
            encoded_filename: encoded,
            debug_encoded_filename: debug_encoded,
        }
    }

    /// Names for a decompress run: the plain name defaults to the
    /// container with a `txt` extension; no transcript is written.
    pub fn new_from_encoded(encoded_filename: &str, unencoded_filename: Option<&str>) -> (r: Self)
        ensures
            r.encoded_filename@ == encoded_filename@,
            r.unencoded_filename@ == match unencoded_filename {
                Some(provided) => provided@,
                None => spec_swap_extension(encoded_filename@, "txt"@),
            },
            r.debug_encoded_filename is None,
    {
        let unencoded = match unencoded_filename {
            Some(provided) => provided.to_owned(),
            None => swap_extension(encoded_filename, "txt"),
        };
        FileInputOutput {
            unencoded_filename: unencoded,
            encoded_filename: encoded_filename.to_owned(),
            debug_encoded_filename: None,
        }
    }

    /// Judges whether a run can read its input, given whether that file
    /// exists: compressing reads the plain file, decompressing the
    /// container. The error names the missing file.
    pub fn input_is_valid(&self, is_encode: bool, input_exists: bool) -> (r: Result<(), String>)
        ensures
            r is Ok <==> input_exists,
            r is Err ==> r->Err_0@ == "Input file does not exist: "@ + (if is_encode {
                self.unencoded_filename@
            } else {
                self.encoded_filename@
            }),
    {
        let input_file_path: &String = if is_encode {
            &self.unencoded_filename
        } else {
            &self.encoded_filename
        };
        if input_exists {
            Ok(())
        } else {
            let mut msg = String::new();
            msg.append("Input file does not exist: ");
            msg.append(input_file_path.as_str());
            Err(msg)
        }
    }

    /// Judges whether a run may write its output, given whether that
    /// file exists: an existing output is only written over when
    /// overwriting is asked for.
    pub fn output_is_valid(&self, is_encode: bool, output_exists: bool, overwrite: bool) -> (r:
        Result<(), &'static str>)
        ensures
            r is Ok <==> (!output_exists || overwrite),
            r is Err ==> r->Err_0@
                == "Output file exists. Consider passing overwrite to ignore this"@,
    {
        match (output_exists, overwrite) {
            (true, true) => Ok(()),
            (false, _) => Ok(()),
            (true, false) => Err("Output file exists. Consider passing overwrite to ignore this"),
        }
    }
}

} // verus!