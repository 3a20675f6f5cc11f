//! Application identity and the settings of the outside services.
use vstd::prelude::*;

verus! {

/// Human-readable name of the application.
pub const APP_NAME: &'static str = "OnTrack";

/// Version of the application.
pub const APP_VERSION: &'static str = "2.0.0";

/// Organization shown in the interface.
pub const ORG_NAME: &'static str = "TDS Telecom";

/// Public OSRM router used when no router is configured.
pub const OSRM_PUBLIC: &'static str = "http://router.project-osrm.org";

/// Settings of the outside services.
#[derive(Debug)]
pub struct Settings {
    /// Google Maps API key; empty when Google is not used.
    pub google_maps_api_key: String,
    /// Base URL of the OSRM router.
    pub osrm_base_url: String,
    /// ArcGIS item identifier; empty when ArcGIS is not used.
    pub arcgis_item_id: String,
    /// Whisper model name for voice input.
    pub whisper_model: String,
}

impl Clone for Settings {
    fn clone(&self) -> (s: Self)
        ensures
            s == *self,
    {
        Settings {
            google_maps_api_key: self.google_maps_api_key.clone(),
            osrm_base_url: self.osrm_base_url.clone(),
            arcgis_item_id: self.arcgis_item_id.clone(),
            whisper_model: self.whisper_model.clone(),
        }
    }
}

/// The default Whisper model.
pub open spec fn default_whisper_model() -> Seq<char> {
    "base"@
}

impl Default for Settings {
    /// Empty key and item, the public OSRM router, and the `"base"` model.
    fn default() -> (s: Self)
        ensures
            s.google_maps_api_key@ == Seq::<char>::empty(),
            s.osrm_base_url@ == OSRM_PUBLIC@,
            s.arcgis_item_id@ == Seq::<char>::empty(),
            s.whisper_model@ == default_whisper_model(),
    {
        Settings {
            google_maps_api_key: String::new(),
            osrm_base_url: OSRM_PUBLIC.to_owned(),
            arcgis_item_id: String::new(),
            whisper_model: "base".to_owned(),
        }
    }
}

impl Settings {
    /// Settings from the values of `GOOGLE_MAPS_API_KEY`, `OSRM_BASE_URL`,
    /// `ARCGIS_ITEM_ID` and `ONTRACK_WHISPER_MODEL`, each `None` when the
    /// variable is unset: the key and the item fall back to empty, the router
    /// to the public one and the model to `"base"`.
    pub fn from_values(
        google_maps_api_key: Option<String>,
        osrm_base_url: Option<String>,
        arcgis_item_id: Option<String>,
        whisper_model: Option<String>,
    ) -> (s: Self)
        ensures
            s.google_maps_api_key@ == (match google_maps_api_key { Some(v) => v@, None => Seq::<char>::empty() }),
            s.osrm_base_url@ == (match osrm_base_url { Some(v) => v@, None => OSRM_PUBLIC@ }),
            s.arcgis_item_id@ == (match arcgis_item_id { Some(v) => v@, None => Seq::<char>::empty() }),
            s.whisper_model@ == (match whisper_model { Some(v) => v@, None => default_whisper_model() }),
    {
        Settings {
            google_maps_api_key: match google_maps_api_key { Some(v) => v, None => String::new() },
            osrm_base_url: match osrm_base_url { Some(v) => v, None => OSRM_PUBLIC.to_owned() },
            arcgis_item_id: match arcgis_item_id { Some(v) => v, None => String::new() },
            whisper_model: match whisper_model { Some(v) => v, None => "base".to_owned() },
        }
    }
}

} // verus!
