//! The state of the unpacker between user actions: the configuration and the
//! resource table of the data directory chosen last, if any.

use std::sync::Arc;
use vstd::prelude::*;

use crate::config::{AppConfig, AppConfigView};
use crate::handler::{share, spec_index_entries, DataHandler, RZData, RZDataView, StipantError};

verus! {

/// The configuration, and the resource table of the chosen data directory.
pub struct AppState {
    data_handler: Option<DataHandler>,
    config: Arc<AppConfig>,
}

impl AppState {
    /// The resource table, once a data directory was read.
    pub closed spec fn handler(&self) -> Option<DataHandler> {
        self.data_handler
    }

    /// The configuration.
    pub closed spec fn config_view(&self) -> AppConfigView {
        self.config@
    }

    /// A resource table, if there is one, was read with the state's
    /// configuration.
    #[verifier::type_invariant]
    spec fn wf(&self) -> bool {
        self.data_handler matches Some(h) ==> h.config_view() == self.config@
    }

    /// The state at start: the configuration, and no data directory yet.
    pub fn new(config: Arc<AppConfig>) -> (state: AppState)
        ensures
            state.handler() is None,
            state.config_view() == config@,
    {
        AppState { data_handler: None, config }
    }

    /// A data directory was chosen and its `data.000` index read: the table
    /// is built with the state's configuration. On success it replaces the
    /// former table and the number of distinct file names is returned; on
    /// failure the state stays as it was.
    pub fn select_data_dir(&mut self, path: &str, index_data: Vec<u8>) -> (count: Result<usize, StipantError>)
        ensures
            final(self).config_view() == old(self).config_view(),
            match count {
                Ok(n) => final(self).handler() matches Some(h) && {
                    &&& spec_index_entries(index_data@, old(self).config_view())
                        == Ok::<Seq<RZDataView>, StipantError>(h.entries_view())
                    &&& h.data_dir_view() == path@
                    &&& h.export_dir_view() is None
                    &&& n == h.index_view().dom().len()
                },
                Err(e) => {
                    &&& spec_index_entries(index_data@, old(self).config_view())
                        == Err::<Seq<RZDataView>, StipantError>(e)
                    &&& final(self).handler() == old(self).handler()
                },
            },
    {
        proof {
            use_type_invariant(&*self);
        }
        match DataHandler::new(path, index_data, share(&self.config)) {
            Ok(handler) => {
                let n: usize = handler.len();
                self.data_handler = Some(handler);
                Ok(n)
            },
            Err(e) => Err(e),
        }
    }

    /// An export directory was chosen: it is set on the table, if there is
    /// one (then `true`); without a table nothing changes (`false`).
    pub fn select_export_dir(&mut self, dir: &str) -> (done: bool)
        ensures
            final(self).config_view() == old(self).config_view(),
            done == old(self).handler() is Some,
            !done ==> final(self).handler() is None,
            done ==> (final(self).handler() matches Some(h) && {
                &&& h.export_dir_view() == Some(dir@)
                &&& h.data_dir_view() == old(self).handler()->0.data_dir_view()
                &&& h.entries_view() == old(self).handler()->0.entries_view()
                &&& forall|f: u8| #[trigger] h.group_view(f) == old(self).handler()->0.group_view(f)
            }),
    {
        proof {
            use_type_invariant(&*self);
        }
        let mut taken: Option<DataHandler> = None;
        std::mem::swap(&mut taken, &mut self.data_handler);
        match taken {
            Some(mut handler) => {
                handler.set_export_dir(dir);
                self.data_handler = Some(handler);
                true
            },
            None => false,
        }
    }

    /// The entry to show for a file name: nothing without a table; otherwise
    /// the entry of that name, or the empty entry when there is none.
    pub fn get_filename(&self, filename: &str) -> (shown: Option<Arc<RZData>>)
        ensures
            self.handler() is None ==> shown is None,
            self.handler() matches Some(h) ==> (shown matches Some(e) && e@ == (if h.index_view().contains_key(
                filename@,
            ) {
                h.index_view()[filename@]
            } else {
                RZDataView::empty()
            })),
    {
        match &self.data_handler {
            Some(handler) => match handler.get_entry_by_name(filename) {
                Some(entry) => Some(entry),
                None => Some(Arc::new(RZData::default())),
            },
            None => None,
        }
    }

    /// The configuration.
    pub fn config(&self) -> (config: &AppConfig)
        ensures
            config@ == self.config_view(),
    {
        &self.config
    }

    /// The resource table, once a data directory was read.
    pub fn data_handler(&self) -> (handler: Option<&DataHandler>)
        ensures
            match handler {
                Some(h) => self.handler() == Some(*h),
                None => self.handler() is None,
            },
    {
        self.data_handler.as_ref()
    }
}

} // verus!
