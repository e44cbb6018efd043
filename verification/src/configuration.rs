//! Plain settings records for the surrounding application: where the
//! database and movie data live and how the service is exposed. Loading them
//! from files or the environment is the caller's concern.

use vstd::prelude::*;

verus! {

pub struct Settings {
    pub database: DatabaseSettings,
    pub application: ApplicationSettings,
    pub movie_data: MovieDataSettings,
}

pub struct ApplicationSettings {
    pub port: u16,
    pub host: String,
    pub allow_cors: bool,
}

pub struct DatabaseSettings {
    pub path: String,
}

pub struct MovieDataSettings {
    pub file_path: String,
}

pub enum Environment {
    Local,
    Production,
}

impl Environment {
    pub fn as_str(&self) -> (r: &'static str)
        ensures
            (*self is Local ==> r@ == "local"@) && (*self is Production ==> r@ == "production"@),
    {
        match self {
            Environment::Local => "local",
            Environment::Production => "production",
        }
    }

    /// Reads an environment name, ignoring ASCII case; anything but the two
    /// known names is handed back as the error.
    pub fn try_from(value: &str) -> (r: Result<Environment, String>)
        ensures
            ({
                let folded = value@.map_values(|c: char| crate::resolver::lower_char(c));
                match r {
                    Ok(e) => (folded == "local"@ && e is Local) || (folded == "production"@
                        && e is Production),
                    Err(msg) => folded != "local"@ && folded != "production"@ && msg@ == value@,
                }
            }),
    {
        let cs = crate::resolver::str_chars(value);
        let mut folded: Vec<char> = Vec::new();
        let mut i: usize = 0;
        while i < cs.len()
            invariant
                i <= cs@.len(),
                cs@ == value@,
                folded@ == cs@.take(i as int).map_values(
                    |c: char| crate::resolver::lower_char(c),
                ),
            decreases cs@.len() - i,
        {
            folded.push(crate::resolver::lower_char_exec(cs[i]));
            proof {
                assert(folded@ =~= cs@.take(i + 1).map_values(
                    |c: char| crate::resolver::lower_char(c),
                ));
            }
            i += 1;
        }
        proof {
            assert(cs@.take(cs@.len() as int) =~= cs@);
        }
        if chars_match(&folded, "local") {
            Ok(Environment::Local)
        } else if chars_match(&folded, "production") {
            Ok(Environment::Production)
        } else {
            Err(value.to_owned())
        }
    }
}

/// Whether the characters spell exactly the given text.
fn chars_match(cs: &Vec<char>, lit: &str) -> (r: bool)
    ensures
        r == (cs@ == lit@),
{
    let ls = crate::resolver::str_chars(lit);
    if cs.len() != ls.len() {
        proof {
            assert(cs@ != lit@);
        }
        return false;
    }
    let mut i: usize = 0;
    while i < cs.len()
        invariant
            i <= cs@.len(),
            cs@.len() == ls@.len(),
            ls@ == lit@,
            forall|j: int| 0 <= j < i ==> cs@[j] == ls@[j],
        decreases cs@.len() - i,
    {
        if cs[i] != ls[i] {
            proof {
                assert(cs@[i as int] != lit@[i as int]);
            }
            return false;
        }
        i += 1;
    }
    proof {
        assert(cs@ =~= lit@);
    }
    true
}

} // verus!
