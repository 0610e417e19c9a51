//! The pairing: the device token lives in the OS credential store (Windows
//! Credential Manager, macOS Keychain); who it belongs to and where to upload
//! are ordinary settings.

use vstd::prelude::*;

use crate::paths;
use crate::paths::FilePath;

verus! {

pub const SERVICE: &'static str = "ch.notizli.recorder";

pub const TOKEN_USER: &'static str = "device-token";

#[derive(Clone, Debug, PartialEq)]
pub struct Settings {
    /// The account this recorder is paired with (shown, never used to authenticate).
    pub paired_email: Option<String>,
    pub device_label: Option<String>,
    pub upload_url: Option<String>,
    /// Microphone device id; None follows the system default.
    pub mic_device: Option<String>,
}

impl Default for Settings {
    fn default() -> (s: Settings)
        ensures
            s.paired_email is None,
            s.device_label is None,
            s.upload_url is None,
            s.mic_device is None,
    {
        Settings { paired_email: None, device_label: None, upload_url: None, mic_device: None }
    }
}

/// Where the settings are kept.
#[derive(Debug)]
pub struct SettingsFile(pub FilePath);

impl SettingsFile {
    pub fn new(data_dir: &str) -> (f: Self)
        ensures
            f.0@ == (paths::Place { folder: paths::at(data_dir@), name: "settings.json"@ }),
    {
        SettingsFile(FilePath::new(data_dir, "settings.json"))
    }

    /// The file that is written first, and takes the settings' place when it is
    /// complete.
    pub fn draft(&self) -> (p: FilePath)
        ensures
            p@ == (paths::Place {
                folder: self.0@.folder,
                name: paths::renamed(self.0@.name, "json.tmp"@),
            }),
    {
        self.0.with_extension("json.tmp")
    }

    /// The settings that were read, or those of a new recorder where there are none.
    pub fn load(read: Option<Settings>) -> (s: Settings)
        ensures
            match read {
                Some(r) => s == r,
                None => s.paired_email is None && s.device_label is None && s.upload_url is None
                    && s.mic_device is None,
            },
    {
        match read {
            Some(r) => r,
            None => Settings::default(),
        }
    }
}

// ---- the device token -------------------------------------------------------

/// A secret, and where it is kept in the credential store.
#[derive(Debug)]
pub struct Credential {
    pub service: String,
    pub user: String,
    pub password: String,
}

/// What the credential store said.
#[derive(Debug)]
pub enum Stored {
    Password(String),
    NoEntry,
    Failed(String),
}

/// What to put into the credential store for a device token.
pub fn save_token(token: &str) -> (c: Credential)
    ensures
        c.service@ == "ch.notizli.recorder"@,
        c.user@ == "device-token"@,
        c.password@ == token@,
{
    Credential {
        service: String::from_str(SERVICE),
        user: String::from_str(TOKEN_USER),
        password: token.to_owned(),
    }
}

/// The device token, if paired, from what the credential store said.
pub fn load_token(stored: Stored) -> (r: Result<Option<String>, String>)
    ensures
        match stored {
            Stored::Password(p) => if p@.len() > 0 {
                r matches Ok(Some(t)) && t == p
            } else {
                r matches Ok(None)
            },
            Stored::NoEntry => r matches Ok(None),
            Stored::Failed(e) => r matches Err(x) && x == e,
        },
{
    match stored {
        Stored::Password(p) => if p.as_str().is_empty() {
            Ok(None)
        } else {
            Ok(Some(p))
        },
        Stored::NoEntry => Ok(None),
        Stored::Failed(e) => Err(e),
    }
}

/// Whether the device token is gone, from what the credential store said when it
/// was deleted: one that was not there is gone too.
pub fn delete_token(stored: Stored) -> (r: Result<(), String>)
    ensures
        match stored {
            Stored::Failed(e) => r matches Err(x) && x == e,
            _ => r is Ok,
        },
{
    match stored {
        Stored::Failed(e) => Err(e),
        _ => Ok(()),
    }
}

} // verus!
