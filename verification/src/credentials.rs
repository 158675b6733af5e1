use vstd::prelude::*;

verus! {

/// The closed set of business roles a registered party can act under.
#[derive(Clone, Copy, Debug, PartialEq, Eq, Structural)]
pub enum Role {
    Cpo,
    Emsp,
    Hub,
}

/// What a logo image depicts.
#[derive(Clone, Copy, Debug, PartialEq, Eq, Structural)]
pub enum LogoCategory {
    Operator,
    Provider,
}

/// Mathematical model of a `Logo`.
#[verifier::ext_equal]
pub ghost struct LogoV {
    pub url: Seq<char>,
    pub thumbnail: Option<Seq<char>>,
    pub category: LogoCategory,
    pub image_type: Seq<char>,
    pub width: u32,
    pub height: u32,
}

/// Descriptive image metadata of a business. `image_type` carries the wire
/// field named "type".
pub struct Logo {
    pub url: String,
    pub thumbnail: Option<String>,
    pub category: LogoCategory,
    pub image_type: String,
    pub width: u32,
    pub height: u32,
}

impl View for Logo {
    type V = LogoV;

    open spec fn view(&self) -> LogoV {
        LogoV {
            url: self.url@,
            thumbnail: self.thumbnail.deep_view(),
            category: self.category,
            image_type: self.image_type@,
            width: self.width,
            height: self.height,
        }
    }
}

impl DeepView for Logo {
    type V = LogoV;

    open spec fn deep_view(&self) -> LogoV {
        self@
    }
}

impl Logo {
    pub fn new(
        url: &str,
        thumbnail: Option<String>,
        category: LogoCategory,
        image_type: &str,
        width: u32,
        height: u32,
    ) -> (r: Logo)
        ensures
            r@ == (LogoV {
                url: url@,
                thumbnail: thumbnail.deep_view(),
                category,
                image_type: image_type@,
                width,
                height,
            }),
    {
        Logo { url: url.to_owned(), thumbnail, category, image_type: image_type.to_owned(), width, height }
    }

    pub fn default() -> (r: Logo)
        ensures
            r@ == (LogoV {
                url: Seq::<char>::empty(),
                thumbnail: Option::<Seq<char>>::None,
                category: LogoCategory::Operator,
                image_type: Seq::<char>::empty(),
                width: 0u32,
                height: 0u32,
            }),
    {
        Logo {
            url: String::new(),
            thumbnail: None,
            category: LogoCategory::Operator,
            image_type: String::new(),
            width: 0,
            height: 0,
        }
    }

    /// Field-for-field copy with the same model.
    pub fn duplicate(&self) -> (r: Logo)
        ensures
            r@ == self@,
    {
        let thumbnail = match &self.thumbnail {
            Some(t) => Some(t.clone()),
            None => None,
        };
        Logo {
            url: self.url.clone(),
            thumbnail,
            category: self.category,
            image_type: self.image_type.clone(),
            width: self.width,
            height: self.height,
        }
    }
}

/// Mathematical model of a `BusinessDetails`.
#[verifier::ext_equal]
pub ghost struct BusinessDetailsV {
    pub name: Seq<char>,
    pub logo: Option<LogoV>,
    pub website: Option<Seq<char>>,
}

/// Descriptive metadata of one business party.
pub struct BusinessDetails {
    pub name: String,
    pub logo: Option<Logo>,
    pub website: Option<String>,
}

impl View for BusinessDetails {
    type V = BusinessDetailsV;

    open spec fn view(&self) -> BusinessDetailsV {
        BusinessDetailsV {
            name: self.name@,
            logo: self.logo.deep_view(),
            website: self.website.deep_view(),
        }
    }
}

impl DeepView for BusinessDetails {
    type V = BusinessDetailsV;

    open spec fn deep_view(&self) -> BusinessDetailsV {
        self@
    }
}

impl BusinessDetails {
    pub fn new(name: &str, logo: Option<Logo>, website: Option<String>) -> (r: BusinessDetails)
        ensures
            r@ == (BusinessDetailsV {
                name: name@,
                logo: logo.deep_view(),
                website: website.deep_view(),
            }),
    {
        BusinessDetails { name: name.to_owned(), logo, website }
    }

    pub fn default() -> (r: BusinessDetails)
        ensures
            r@ == (BusinessDetailsV {
                name: Seq::<char>::empty(),
                logo: Option::<LogoV>::None,
                website: Option::<Seq<char>>::None,
            }),
    {
        BusinessDetails { name: String::new(), logo: None, website: None }
    }

    /// Field-for-field copy with the same model.
    pub fn duplicate(&self) -> (r: BusinessDetails)
        ensures
            r@ == self@,
    {
        let logo = match &self.logo {
            Some(l) => Some(l.duplicate()),
            None => None,
        };
        let website = match &self.website {
            Some(w) => Some(w.clone()),
            None => None,
        };
        BusinessDetails { name: self.name.clone(), logo, website }
    }
}

/// Mathematical model of a `CredentialsRole`.
#[verifier::ext_equal]
pub ghost struct CredentialsRoleV {
    pub role: Role,
    pub party_id: Seq<char>,
    pub country_code: Seq<char>,
    pub business_details: BusinessDetailsV,
}

/// One business role a party acts under. The (party id, country code, role)
/// triple uniquely identifies a party role.
pub struct CredentialsRole {
    pub role: Role,
    pub party_id: String,
    pub country_code: String,
    pub business_details: BusinessDetails,
}

impl View for CredentialsRole {
    type V = CredentialsRoleV;

    open spec fn view(&self) -> CredentialsRoleV {
        CredentialsRoleV {
            role: self.role,
            party_id: self.party_id@,
            country_code: self.country_code@,
            business_details: self.business_details@,
        }
    }
}

impl DeepView for CredentialsRole {
    type V = CredentialsRoleV;

    open spec fn deep_view(&self) -> CredentialsRoleV {
        self@
    }
}

impl CredentialsRole {
    pub fn new(
        role: Role,
        party_id: &str,
        country_code: &str,
        business_details: BusinessDetails,
    ) -> (r: CredentialsRole)
        ensures
            r@ == (CredentialsRoleV {
                role,
                party_id: party_id@,
                country_code: country_code@,
                business_details: business_details@,
            }),
    {
        CredentialsRole {
            role,
            party_id: party_id.to_owned(),
            country_code: country_code.to_owned(),
            business_details,
        }
    }

    pub fn default() -> (r: CredentialsRole)
        ensures
            r@.role == Role::Cpo,
            r@.party_id == Seq::<char>::empty(),
            r@.country_code == Seq::<char>::empty(),
            r@.business_details == (BusinessDetailsV {
                name: Seq::<char>::empty(),
                logo: Option::<LogoV>::None,
                website: Option::<Seq<char>>::None,
            }),
    {
        CredentialsRole {
            role: Role::Cpo,
            party_id: String::new(),
            country_code: String::new(),
            business_details: BusinessDetails::default(),
        }
    }

    /// Field-for-field copy with the same model.
    pub fn duplicate(&self) -> (r: CredentialsRole)
        ensures
            r@ == self@,
    {
        CredentialsRole {
            role: self.role,
            party_id: self.party_id.clone(),
            country_code: self.country_code.clone(),
            business_details: self.business_details.duplicate(),
        }
    }
}

/// Mathematical model of a `Credentials`.
#[verifier::ext_equal]
pub ghost struct CredentialsV {
    pub token: Seq<char>,
    pub url: Seq<char>,
    pub roles: Seq<CredentialsRoleV>,
}

impl CredentialsV {
    /// The record invariant: a registration carries at least one role.
    pub open spec fn wf(self) -> bool {
        self.roles.len() > 0
    }
}

/// One party's registration identity: an opaque token, the party's versions
/// endpoint, and the roles it acts under.
pub struct Credentials {
    pub token: String,
    pub url: String,
    pub roles: Vec<CredentialsRole>,
}

impl View for Credentials {
    type V = CredentialsV;

    open spec fn view(&self) -> CredentialsV {
        CredentialsV { token: self.token@, url: self.url@, roles: self.roles.deep_view() }
    }
}

impl DeepView for Credentials {
    type V = CredentialsV;

    open spec fn deep_view(&self) -> CredentialsV {
        self@
    }
}

impl Credentials {
    pub fn new(token: &str, url: &str, roles: Vec<CredentialsRole>) -> (r: Credentials)
        ensures
            r@ == (CredentialsV { token: token@, url: url@, roles: roles.deep_view() }),
    {
        Credentials { token: token.to_owned(), url: url.to_owned(), roles }
    }

    pub fn default() -> (r: Credentials)
        ensures
            r@.token == Seq::<char>::empty(),
            r@.url == Seq::<char>::empty(),
            r@.roles == Seq::<CredentialsRoleV>::empty(),
    {
        Credentials { token: String::new(), url: String::new(), roles: Vec::new() }
    }

    /// Field-for-field copy with the same model.
    pub fn duplicate(&self) -> (r: Credentials)
        ensures
            r@ == self@,
    {
        let mut roles: Vec<CredentialsRole> = Vec::new();
        let mut i: usize = 0;
        while i < self.roles.len()
            invariant
                i <= self.roles@.len(),
                roles@.len() == i,
                forall|k: int| 0 <= k < i ==> roles@[k]@ == self.roles@[k]@,
            decreases self.roles@.len() - i,
        {
            let d = self.roles[i].duplicate();
            roles.push(d);
            i = i + 1;
        }
        proof {
            assert(roles.deep_view() =~= self.roles.deep_view());
        }
        Credentials { token: self.token.clone(), url: self.url.clone(), roles }
    }

    /// Runtime check of the record invariant `CredentialsV::wf`.
    pub fn well_formed(&self) -> (r: bool)
        ensures
            r == self@.wf(),
    {
        self.roles.len() > 0
    }
}

} // verus!
