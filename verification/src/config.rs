//! The configuration of the server: where it listens, and where its data lives.

use vstd::prelude::*;

use crate::text::{chars_of, push_str, string_of};

verus! {

#[derive(Debug, Clone)]
pub struct Config {
    pub server: ServerConfig,
    pub paths: PathsConfig,
}

#[derive(Debug, Clone)]
pub struct ServerConfig {
    pub host: String,
    pub port: u16,
}

#[derive(Debug, Clone)]
pub struct PathsConfig {
    pub game_binary: String,
    pub database: String,
}

pub open spec fn tried_text(tried: Seq<String>) -> Seq<char>
    decreases tried.len(),
{
    if tried.len() == 0 {
        Seq::empty()
    } else if tried.len() == 1 {
        "  - "@ + tried[0]@
    } else {
        tried_text(tried.drop_last()) + "\n  - "@ + tried.last()@
    }
}

pub open spec fn no_config_text(tried: Seq<String>) -> Seq<char> {
    "Aucun fichier de configuration trouvé. Chemins essayés :\n"@ + tried_text(tried)
        + "\nCrée le fichier dans ~/.config/sesame/config.toml, lance la commande depuis le dossier du projet, ou passe --config <fichier>."@
}

/// The message when no configuration file exists: every place tried, one per
/// line, and what to do.
pub fn no_config_message(tried: &[String]) -> (r: String)
    ensures
        r@ == no_config_text(tried@),
{
    let mut m: Vec<char> = chars_of("Aucun fichier de configuration trouvé. Chemins essayés :\n");
    let ghost start = m@;
    let mut i: usize = 0;
    while i < tried.len()
        invariant
            i <= tried@.len(),
            m@ == start + tried_text(tried@.subrange(0, i as int)),
        decreases tried@.len() - i,
    {
        assert(tried@.subrange(0, i + 1).drop_last() == tried@.subrange(0, i as int));
        if i > 0 {
            push_str(&mut m, "\n  - ");
        } else {
            push_str(&mut m, "  - ");
        }
        push_str(&mut m, tried[i].as_str());
        i = i + 1;
        assert(m@ =~= start + tried_text(tried@.subrange(0, i as int)));
    }
    assert(tried@.subrange(0, tried@.len() as int) == tried@);
    push_str(
        &mut m,
        "\nCrée le fichier dans ~/.config/sesame/config.toml, lance la commande depuis le dossier du projet, ou passe --config <fichier>.",
    );
    string_of(&m)
}

impl Config {
    /// Which configuration file to read when none is given: the first of the
    /// default places (`candidates`, in order) that exists (`exists[i]` tells
    /// whether `candidates[i]` does). When none exists, the message lists
    /// every place tried.
    pub fn load_default(candidates: &[String], exists: &[bool]) -> (r: Result<usize, String>)
        requires
            exists@.len() == candidates@.len(),
        ensures
            r matches Ok(i) ==> i < exists@.len() && exists@[i as int] && forall|j: int|
                0 <= j < i ==> !exists@[j],
            r matches Err(m) ==> m@ == no_config_text(candidates@),
            r is Err <==> forall|j: int| 0 <= j < exists@.len() ==> !exists@[j],
    {
        let mut i: usize = 0;
        while i < exists.len()
            invariant
                i <= exists@.len(),
                forall|j: int| 0 <= j < i ==> !exists@[j],
            decreases exists@.len() - i,
        {
            if exists[i] {
                return Ok(i);
            }
            i = i + 1;
        }
        Err(no_config_message(candidates))
    }
}

} // verus!
